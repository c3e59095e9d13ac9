//! The packed runtime table: commands parsed once into a flat pool, rows as
//! sorted character arrays, and a stemmer that interprets the pooled
//! commands directly.
use vstd::prelude::*;

use crate::edit::{
    apply_spec, arg_value, cannot_follow, edit_pairs, edit_step, is_lower, is_sentinel,
    length_pp_spec, pairs_valid,
};
use crate::multitrie::{compose_from, prev_length, skip_key, MultiView};
use crate::stemmer::{stem_spec, Outcome, TableView, MAX_UNSTEMMED_LEN};
use crate::text::{chars_of, string_of};
use crate::trie::{below, key_char, search_sorted, RowView, TrieView};

verus! {

/// One parsed edit command.
#[derive(Clone, Copy, Debug, PartialEq, Eq, Structural)]
pub enum Command {
    /// Move the cursor back over `chars` characters.
    Skip { chars: u8 },
    /// Delete `chars` characters ending at the cursor.
    Delete { chars: u8 },
    /// Replace the character at the cursor.
    Replace { char: char },
    /// Insert a character after the cursor.
    Insert { char: char },
}

/// The command that the pair `(op, arg)` stands for.
pub open spec fn command_of(op: char, arg: char) -> Option<Command> {
    if (op == '-' || op == 'D') && is_lower(arg) {
        let n = (1 + arg_value(arg)) as u8;
        if op == '-' {
            Some(Command::Skip { chars: n })
        } else {
            Some(Command::Delete { chars: n })
        }
    } else if op == 'R' {
        Some(Command::Replace { char: arg })
    } else if op == 'I' {
        Some(Command::Insert { char: arg })
    } else {
        None
    }
}

/// The lowercase letter that stands for a count of `n` characters.
pub open spec fn count_letter(n: u8) -> char {
    ((n as u32) + 96) as char
}

impl Command {
    /// A skip or a deletion covers 1 to 26 characters.
    pub open spec fn wf(self) -> bool {
        match self {
            Command::Skip { chars } => 1 <= chars <= 26,
            Command::Delete { chars } => 1 <= chars <= 26,
            _ => true,
        }
    }

    /// The op character of the command.
    pub open spec fn op(self) -> char {
        match self {
            Command::Skip { .. } => '-',
            Command::Delete { .. } => 'D',
            Command::Replace { .. } => 'R',
            Command::Insert { .. } => 'I',
        }
    }

    /// The `(op, arg)` pair the command stands for.
    pub open spec fn text(self) -> Seq<char> {
        match self {
            Command::Skip { chars } => seq!['-', count_letter(chars)],
            Command::Delete { chars } => seq!['D', count_letter(chars)],
            Command::Replace { char } => seq!['R', char],
            Command::Insert { char } => seq!['I', char],
        }
    }

    /// The number of source characters the command accounts for.
    pub open spec fn span(self) -> int {
        match self {
            Command::Skip { chars } => chars as int,
            Command::Delete { chars } => chars as int,
            Command::Replace { .. } => 1,
            Command::Insert { .. } => 0,
        }
    }

    /// Parses the pair `(cmd, param)`; `None` for an unknown op or a count
    /// that is not a lowercase letter.
    pub fn parse(cmd: char, param: char) -> (r: Option<Command>)
        ensures
            r == command_of(cmd, param),
            r matches Some(c) ==> c.wf() && c.text() == seq![cmd, param],
    {
        if (cmd == '-' || cmd == 'D') && 'a' <= param && param <= 'z' {
            let n = (1 + (param as u32 - 'a' as u32)) as u8;
            proof {
                assert((n as u32) + 96 == param as u32);
                vstd::utf8::char_u32_cast(param, param as u32);
                assert(count_letter(n) == param);
            }
            if cmd == '-' {
                Some(Command::Skip { chars: n })
            } else {
                Some(Command::Delete { chars: n })
            }
        } else if cmd == 'R' {
            Some(Command::Replace { char: param })
        } else if cmd == 'I' {
            Some(Command::Insert { char: param })
        } else {
            None
        }
    }
}

/// The command string that a sequence of commands stands for.
pub open spec fn commands_text(cs: Seq<Command>) -> Seq<char>
    decreases cs.len(),
{
    if cs.len() == 0 {
        Seq::empty()
    } else {
        cs[0].text() + commands_text(cs.subrange(1, cs.len() as int))
    }
}

/// Every command of the sequence is well formed.
pub open spec fn commands_wf(cs: Seq<Command>) -> bool {
    forall|i: int| 0 <= i < cs.len() ==> (#[trigger] cs[i]).wf()
}

/// A well-formed command's text is a valid pair with its op first.
pub proof fn lemma_command_text(c: Command)
    requires
        c.wf(),
    ensures
        c.text().len() == 2,
        c.text()[0] == c.op(),
        is_lower(c.text()[1]) || c.op() == 'R' || c.op() == 'I',
        crate::edit::pair_length(c.text()[0], c.text()[1]) == c.span(),
        crate::edit::valid_pair(c.text()[0], c.text()[1]),
{
    match c {
        Command::Skip { chars } => {
            assert(count_letter(chars) as int == chars + 96);
        },
        Command::Delete { chars } => {
            assert(count_letter(chars) as int == chars + 96);
        },
        _ => {},
    }
}

/// The text of a sequence of commands is two characters per command.
pub proof fn lemma_commands_text_len(cs: Seq<Command>)
    ensures
        commands_text(cs).len() == 2 * cs.len(),
    decreases cs.len(),
{
    if cs.len() > 0 {
        lemma_commands_text_len(cs.subrange(1, cs.len() as int));
    }
}

/// The text of a concatenation is the concatenation of the texts.
pub proof fn lemma_commands_text_concat(a: Seq<Command>, b: Seq<Command>)
    ensures
        commands_text(a + b) == commands_text(a) + commands_text(b),
    decreases a.len(),
{
    if a.len() == 0 {
        assert(a + b =~= b);
    } else {
        assert((a + b).subrange(1, (a + b).len() as int) =~= a.subrange(1, a.len() as int) + b);
        lemma_commands_text_concat(a.subrange(1, a.len() as int), b);
    }
}

/// Edit step of one command at cursor `pos`, as `edit_step` does for its
/// text.
pub open spec fn command_step(w: Seq<char>, pos: int, c: Command) -> Option<(Seq<char>, int)> {
    edit_step(w, pos, c.text()[0], c.text()[1])
}

/// Applying the commands one by one is applying their text.
proof fn lemma_edit_commands_unfold(w: Seq<char>, pos: int, cs: Seq<Command>)
    requires
        cs.len() > 0,
        cs[0].wf(),
    ensures
        edit_pairs(w, pos, commands_text(cs)) == match command_step(w, pos, cs[0]) {
            Some((w2, p2)) => edit_pairs(w2, p2 - 1, commands_text(cs.subrange(1, cs.len() as int))),
            None => None,
        },
{
    let t = commands_text(cs);
    let rest = commands_text(cs.subrange(1, cs.len() as int));
    lemma_command_text(cs[0]);
    assert(t == cs[0].text() + rest);
    assert(t[0] == cs[0].text()[0] && t[1] == cs[0].text()[1]);
    assert(t.subrange(2, t.len() as int) =~= rest);
}

/// Below -1 the cursor can never again reach the word.
proof fn lemma_low_cursor_commands(w: Seq<char>, p: int, q: int, cs: Seq<Command>)
    requires
        p <= -2,
        q <= -2,
        commands_wf(cs),
    ensures
        edit_pairs(w, p, commands_text(cs)) == edit_pairs(w, q, commands_text(cs)),
    decreases cs.len(),
{
    if cs.len() > 0 {
        lemma_edit_commands_unfold(w, p, cs);
        lemma_edit_commands_unfold(w, q, cs);
        lemma_command_text(cs[0]);
        let rest = cs.subrange(1, cs.len() as int);
        assert(commands_wf(rest)) by {
            assert forall|i: int| 0 <= i < rest.len() implies (#[trigger] rest[i]).wf() by {
                assert(rest[i] == cs[i + 1]);
            }
        }
        match cs[0] {
            Command::Skip { chars } => {
                let d = 1 + arg_value(cs[0].text()[1]);
                lemma_low_cursor_commands(w, p - d - 1, q - d - 1, rest);
            },
            _ => {},
        }
    }
}

/// Applies the commands `cs` to `word` directly, with the result that
/// applying their command string gives.
pub fn apply_commands(word: &Vec<char>, cs: &Vec<Command>) -> (r: Option<Vec<char>>)
    requires
        commands_wf(cs@),
    ensures
        r matches Some(v) ==> apply_spec(word@, commands_text(cs@)) == Some(v@),
        r is None ==> apply_spec(word@, commands_text(cs@)) is None,
{
    if word.len() == 0 {
        return None;
    }
    let mut result = word.clone();
    let mut pos: i128 = (word.len() - 1) as i128;
    let mut i: usize = 0;
    let ghost target = edit_pairs(word@, word@.len() - 1, commands_text(cs@));
    assert(cs@.subrange(0, cs@.len() as int) == cs@);
    while i < cs.len()
        invariant
            commands_wf(cs@),
            i <= cs@.len(),
            -2 <= pos <= result@.len(),
            target == edit_pairs(word@, word@.len() - 1, commands_text(cs@)),
            edit_pairs(result@, pos as int, commands_text(cs@.subrange(i as int, cs@.len() as int)))
                == target,
        decreases cs@.len() - i,
    {
        let ghost rest = cs@.subrange(i + 1, cs@.len() as int);
        let ghost here = cs@.subrange(i as int, cs@.len() as int);
        assert(here[0] == cs@[i as int]);
        assert(here.subrange(1, here.len() as int) == rest);
        proof {
            lemma_edit_commands_unfold(result@, pos as int, here);
            lemma_command_text(cs@[i as int]);
        }
        let ghost w0 = result@;
        let ghost p0 = pos as int;
        match cs[i] {
            Command::Skip { chars } => {
                pos = pos - (chars as i128);
            },
            Command::Replace { char } => {
                if pos < 0 || pos >= result.len() as i128 {
                    return None;
                }
                result.set(pos as usize, char);
            },
            Command::Delete { chars } => {
                let span = (chars - 1) as i128;
                if pos - span < 0 || pos >= result.len() as i128 {
                    return None;
                }
                let start = (pos - span) as usize;
                let end = pos as usize;
                let mut k: usize = start;
                while k < end
                    invariant
                        start <= k <= end,
                        end < w0.len(),
                        result@ == w0.subrange(0, start as int) + w0.subrange(
                            k as int,
                            w0.len() as int,
                        ),
                    decreases end - k,
                {
                    result.remove(start);
                    k = k + 1;
                    assert(result@ == w0.subrange(0, start as int) + w0.subrange(
                        k as int,
                        w0.len() as int,
                    ));
                }
                result.remove(start);
                assert(result@ == w0.subrange(0, start as int) + w0.subrange(
                    end + 1,
                    w0.len() as int,
                ));
                pos = pos - span;
            },
            Command::Insert { char } => {
                if pos < -1 || pos >= result.len() as i128 {
                    return None;
                }
                pos = pos + 1;
                result.insert(pos as usize, char);
            },
        }
        assert(command_step(w0, p0, cs@[i as int]) == Some((result@, pos as int)));
        pos = pos - 1;
        proof {
            assert(commands_wf(rest)) by {
                assert forall|j: int| 0 <= j < rest.len() implies (#[trigger] rest[j]).wf() by {
                    assert(rest[j] == cs@[i + 1 + j]);
                }
            }
        }
        if pos < -2 {
            proof {
                lemma_low_cursor_commands(result@, pos as int, -2, rest);
            }
            pos = -2;
        }
        i = i + 1;
    }
    assert(cs@.subrange(i as int, cs@.len() as int) =~= Seq::<Command>::empty());
    assert(commands_text(Seq::<Command>::empty()) =~= Seq::<char>::empty());
    if result.len() == 0 {
        None
    } else {
        Some(result)
    }
}

/// The source characters a sequence of commands accounts for.
pub open spec fn spans(cs: Seq<Command>) -> int
    decreases cs.len(),
{
    if cs.len() == 0 {
        0
    } else {
        cs[0].span() + spans(cs.subrange(1, cs.len() as int))
    }
}

/// The text of well-formed commands is valid pairs, and its length count is
/// the commands' spans.
pub proof fn lemma_commands_text_valid(cs: Seq<Command>)
    requires
        commands_wf(cs),
    ensures
        pairs_valid(commands_text(cs)),
        length_pp_spec(commands_text(cs)) == spans(cs),
        commands_text(cs).len() == 2 * cs.len(),
    decreases cs.len(),
{
    lemma_commands_text_len(cs);
    if cs.len() > 0 {
        let rest = cs.subrange(1, cs.len() as int);
        assert(commands_wf(rest)) by {
            assert forall|i: int| 0 <= i < rest.len() implies (#[trigger] rest[i]).wf() by {
                assert(rest[i] == cs[i + 1]);
            }
        }
        lemma_commands_text_valid(rest);
        lemma_command_text(cs[0]);
        let t = commands_text(cs);
        assert(t.subrange(2, t.len() as int) =~= commands_text(rest));
    }
}

/// The end-of-multi-trie marker of a command slice.
pub const EOM: u32 = 0xffff_ffff;

/// A run of the command pool packed into a `u32`: the start index in the
/// high bits and the length, at most 15, in the low four; `EOM` marks the
/// end of the multi-trie and zero is never a slice.
#[derive(Clone, Copy, Debug, PartialEq, Eq, Structural)]
pub struct CommandSlice(pub u32);

impl CommandSlice {
    pub open spec fn start_spec(self) -> int {
        (self.0 >> 4u32) as int
    }

    pub open spec fn len_spec(self) -> int {
        (self.0 & 15u32) as int
    }

    /// The end-of-multi-trie marker.
    pub fn new_eom() -> (r: CommandSlice)
        ensures
            r.0 == EOM,
    {
        CommandSlice(EOM)
    }

    /// The run of `len` commands from `index`.
    pub fn new(index: usize, len: usize) -> (r: CommandSlice)
        requires
            0 < len <= 15,
            index < 0x100_0000,
        ensures
            r.0 != 0,
            r.0 != EOM,
            r.start_spec() == index,
            r.len_spec() == len,
    {
        let i = index as u32;
        let l = len as u32;
        let packed = (i << 4u32) | l;
        assert(packed != 0 && packed != 0xffff_ffffu32 && (packed >> 4u32) == i && (packed & 15u32)
            == l) by (bit_vector)
            requires
                packed == (i << 4u32) | l,
                0 < l <= 15,
                i < 0x100_0000,
        ;
        CommandSlice(packed)
    }

    /// Whether this is the end-of-multi-trie marker.
    pub fn is_eom(self) -> (r: bool)
        ensures
            r == (self.0 == EOM),
    {
        self.0 == EOM
    }

    /// The number of commands in the run.
    pub fn len(self) -> (r: usize)
        ensures
            r == self.len_spec(),
            r <= 15,
    {
        let x = self.0;
        assert((x & 15u32) <= 15u32) by (bit_vector);
        (x & 15u32) as usize
    }

    /// The index of the run's first command.
    pub fn start_index(self) -> (r: usize)
        ensures
            r == self.start_spec(),
    {
        (self.0 >> 4u32) as usize
    }

    /// The commands of the run.
    pub fn lookup(self, commands: &[Command]) -> (r: &[Command])
        requires
            self.start_spec() + self.len_spec() <= commands@.len(),
        ensures
            r@ == commands@.subrange(self.start_spec(), self.start_spec() + self.len_spec()),
    {
        let start = self.start_index();
        let pool_len = commands.len();
        let end = start + self.len();
        assert(end <= pool_len);
        vstd::slice::slice_subrange(commands, start, end)
    }
}

/// The command string that slice value `k` stands for in `commands`.
pub open spec fn slice_text(commands: Seq<Command>, k: u32) -> Seq<char> {
    if k == EOM {
        seq!['*']
    } else {
        let s = CommandSlice(k).start_spec();
        let l = CommandSlice(k).len_spec();
        if s + l <= commands.len() {
            commands_text(commands.subrange(s, s + l))
        } else {
            Seq::empty()
        }
    }
}

/// One edge of a packed row: `refr` is the next row plus one, or zero for
/// none; `cmds` is a command slice, or zero for none.
#[derive(Clone, Copy, Debug, PartialEq, Eq, Structural)]
pub struct Cell {
    pub refr: u16,
    pub cmds: u32,
}

/// The cell of the trie model that a packed cell stands for.
pub open spec fn cell_view(c: Cell) -> crate::trie::Cell {
    crate::trie::Cell {
        refr: if c.refr == 0 {
            None
        } else {
            Some((c.refr - 1) as u32)
        },
        cmd: if c.cmds == 0 {
            None
        } else {
            Some(c.cmds)
        },
        cnt: 0,
        skip: 0,
    }
}

/// A packed row: sorted characters and their cells.
#[derive(Clone, Debug)]
pub struct Row {
    pub chars: Vec<char>,
    pub cells: Vec<Cell>,
}

impl Row {
    pub open spec fn model(&self) -> RowView {
        RowView { chars: self.chars@, cells: self.cells@.map_values(|c: Cell| cell_view(c)) }
    }

    /// The cell at `ch`, by binary search.
    pub fn get(&self, ch: char) -> (r: Option<Cell>)
        requires
            self.model().wf(),
        ensures
            r matches Some(c) ==> self.model().cell_of(ch) == Some(cell_view(c)),
            r is None ==> self.model().cell_of(ch) is None,
    {
        let ghost m = self.model();
        assert(m.chars == self.chars@);
        match search_sorted(&self.chars, ch) {
            Some(i) => {
                proof {
                    let k = choose|k: int| 0 <= k < m.chars.len() && m.chars[k] == ch;
                    assert(k == i as int) by {
                        if k < i {
                            assert(m.chars[k] < m.chars[i as int]);
                        } else if k > i {
                            assert(m.chars[i as int] < m.chars[k]);
                        }
                    }
                }
                Some(self.cells[i])
            },
            None => None,
        }
    }
}

/// A packed trie: its rows, row 0 the root, and its direction.
#[derive(Clone, Debug)]
pub struct Trie {
    pub rows: Vec<Row>,
    pub forward: bool,
}

impl Trie {
    /// The command slice that the walk of `get_last_on_path` finds for the
    /// window `key[lo..hi]`.
    fn get(&self, Ghost(pool): Ghost<Seq<Command>>, key: &Vec<char>, lo: usize, hi: usize) -> (r:
        Option<u32>)
        requires
            self.model(pool).wf(),
            lo < hi <= key@.len(),
        ensures
            r == self.model(pool).walk(0, key@.subrange(lo as int, hi as int), 0, None),
    {
        let ghost m = self.model(pool);
        let ghost k = key@.subrange(lo as int, hi as int);
        let n = hi - lo;
        let mut now: usize = 0;
        let mut best: Option<u32> = None;
        let mut i: usize = 0;
        while i + 1 < n
            invariant
                m == self.model(pool),
                m.wf(),
                lo < hi <= key@.len(),
                n == hi - lo,
                k == key@.subrange(lo as int, hi as int),
                i < n,
                now < self.rows@.len(),
                m.walk(0, k, 0, None) == m.walk(now as int, k, i as int, best),
            decreases n - i,
        {
            let ch = if self.forward {
                key[lo + i]
            } else {
                key[hi - 1 - i]
            };
            assert(ch == key_char(k, self.forward, i as int));
            let row = &self.rows[now];
            assert(m.rows[now as int] == row.model());
            assert(m.rows[now as int].wf());
            match row.get(ch) {
                None => {
                    return best;
                },
                Some(cell) => {
                    if cell.cmds != 0 {
                        best = Some(cell.cmds);
                    }
                    if cell.refr != 0 {
                        proof {
                            let j = choose|j: int|
                                0 <= j < m.rows[now as int].chars.len() && m.rows[now as int].chars[j] == ch;
                            assert(m.rows[now as int].cells[j].refr == cell_view(cell).refr);
                        }
                        now = (cell.refr - 1) as usize;
                    } else {
                        return best;
                    }
                },
            }
            i = i + 1;
        }
        let ch = if self.forward {
            key[lo + i]
        } else {
            key[hi - 1 - i]
        };
        assert(ch == key_char(k, self.forward, i as int));
        let row = &self.rows[now];
        assert(m.rows[now as int] == row.model());
        assert(m.rows[now as int].wf());
        match row.get(ch) {
            Some(cell) => if cell.cmds != 0 {
                Some(cell.cmds)
            } else {
                best
            },
            None => best,
        }
    }

    /// The trie model this packed trie stands for, over the command pool
    /// `commands`: every slice value indexes its own command string.
    pub open spec fn model(&self, commands: Seq<Command>) -> TrieView {
        TrieView {
            rows: self.rows@.map_values(|r: Row| r.model()),
            cmds: Seq::new(0x1_0000_0000, |k: int| slice_text(commands, k as u32)),
            root: 0,
            forward: self.forward,
        }
    }
}

/// Every slice of the trie's cells lies within the pool and is not empty.
pub open spec fn slices_fit(t: TrieView, commands: Seq<Command>) -> bool {
    forall|r: int, i: int|
        0 <= r < t.rows.len() && 0 <= i < t.rows[r].cells.len() ==> match (
        #[trigger] t.rows[r].cells[i]).cmd {
            Some(k) => k == EOM || (CommandSlice(k).len_spec() > 0 && CommandSlice(k).start_spec()
                + CommandSlice(k).len_spec() <= commands.len()),
            None => true,
        }
}

/// The packed stemmer: one pool of commands and an ordered list of tries.
#[derive(Clone, Debug)]
pub struct Stemmer {
    pub commands: Vec<Command>,
    pub tries: Vec<Trie>,
}

impl View for Stemmer {
    type V = MultiView;

    open spec fn view(&self) -> MultiView {
        MultiView {
            tries: self.tries@.map_values(|t: Trie| t.model(self.commands@)),
            forward: false,
            by: 0,
        }
    }
}

impl Stemmer {
    pub open spec fn wf(&self) -> bool {
        &&& commands_wf(self.commands@)
        &&& self@.wf()
    }

    /// The composed commands of the tries for the word `word`, by the rules
    /// of the multi-trie: the text of the result is the composed command
    /// string of the stemmer's model.
    fn compose(&self, word: &Vec<char>) -> (r: Option<Vec<Command>>)
        requires
            self.wf(),
            word@.len() > 0,
        ensures
            r matches Some(cs) ==> self@.compose_on_path(word@) == Some(commands_text(cs@))
                && commands_wf(cs@),
            r is None ==> self@.compose_on_path(word@) is None,
    {
        let ghost pool = self.commands@;
        let mut acc: Vec<Command> = Vec::new();
        let mut lo: usize = 0;
        let mut hi: usize = word.len();
        let ghost mut prev: Option<Seq<char>> = None;
        let mut prev_len: usize = 0;
        let mut last_ch: char = ' ';
        let mut i: usize = 0;
        assert(word@.subrange(0, word@.len() as int) == word@);
        assert(commands_text(acc@) =~= Seq::<char>::empty());
        while i < self.tries.len()
            invariant
                self.wf(),
                pool == self.commands@,
                i <= self.tries@.len(),
                lo < hi <= word@.len(),
                commands_wf(acc@),
                prev_len <= 26 * 15,
                prev_len == prev_length(prev),
                self@.compose_on_path(word@) == compose_from(
                    self@.tries,
                    i as int,
                    word@.subrange(lo as int, hi as int),
                    prev,
                    last_ch,
                    commands_text(acc@),
                ),
            decreases self.tries@.len() - i,
        {
            let t = &self.tries[i];
            let ghost tm = t.model(pool);
            assert(self@.tries[i as int] == tm);
            assert(tm.wf());
            let ghost key = word@.subrange(lo as int, hi as int);
            let k = match t.get(Ghost(pool), word, lo, hi) {
                None => {
                    return None;
                },
                Some(k) => k,
            };
            let ghost r = tm.cmds[k as int];
            assert(r == slice_text(pool, k));
            if k == EOM {
                assert(is_sentinel(r));
                return None;
            }
            let sl = CommandSlice(k);
            let start = sl.start_index();
            let len = sl.len();
            if len == 0 || start > self.commands.len() || len > self.commands.len() - start {
                assert(r.len() < 2) by {
                    if start + len <= pool.len() {
                        assert(pool.subrange(start as int, start + len) =~= Seq::<Command>::empty());
                    }
                }
                return None;
            }
            let ghost cs = pool.subrange(start as int, (start + len) as int);
            proof {
                assert(commands_wf(cs)) by {
                    assert forall|j: int| 0 <= j < cs.len() implies (#[trigger] cs[j]).wf() by {
                        assert(cs[j] == pool[start + j]);
                    }
                }
                lemma_commands_text_valid(cs);
                lemma_text_ends(cs);
                assert(!is_sentinel(r));
            }
            let first = op_char(&self.commands[start]);
            let last = op_char(&self.commands[start + len - 1]);
            assert(first == r[0] && last == r[r.len() - 2]);
            if cannot_follow(last_ch, first) {
                return None;
            }
            let r_len = self.span_of(start, len);
            if first == '-' {
                let skip = prev_len + r_len;
                if skip >= hi - lo {
                    return None;
                }
                if t.forward {
                    lo = lo + skip;
                } else {
                    hi = hi - skip;
                }
                assert(word@.subrange(lo as int, hi as int) =~= skip_key(key, skip as int, t.forward));
            }
            let ghost before = acc@;
            let end = start + len;
            let mut j: usize = start;
            while j < end
                invariant
                    end == start + len,
                    start + len <= self.commands@.len(),
                    start <= j <= start + len,
                    acc@ == before + self.commands@.subrange(start as int, j as int),
                decreases end - j,
            {
                acc.push(self.commands[j]);
                j = j + 1;
                assert(acc@ =~= before + self.commands@.subrange(start as int, j as int));
            }
            proof {
                lemma_commands_text_concat(before, cs);
                assert(commands_wf(acc@)) by {
                    assert forall|q: int| 0 <= q < acc@.len() implies (#[trigger] acc@[q]).wf() by {
                        if q < before.len() {
                            assert(acc@[q] == before[q]);
                        } else {
                            assert(acc@[q] == cs[q - before.len()]);
                        }
                    }
                }
            }
            prev_len = r_len;
            proof {
                prev = Some(r);
            }
            last_ch = last;
            i = i + 1;
        }
        Some(acc)
    }

    /// The source characters that the commands `start..start + len` account
    /// for.
    fn span_of(&self, start: usize, len: usize) -> (r: usize)
        requires
            commands_wf(self.commands@),
            start + len <= self.commands@.len(),
            len <= 15,
        ensures
            r == spans(self.commands@.subrange(start as int, (start + len) as int)),
            r <= 26 * len,
    {
        let pool_len = self.commands.len();
        let end = start + len;
        assert(end <= pool_len);
        let mut total: usize = 0;
        let mut j: usize = end;
        assert(self.commands@.subrange(end as int, end as int) =~= Seq::<Command>::empty());
        while j > start
            invariant
                commands_wf(self.commands@),
                start <= j <= end,
                end == start + len,
                end <= self.commands@.len(),
                len <= 15,
                total <= 26 * (end - j),
                total == spans(self.commands@.subrange(j as int, end as int)),
            decreases j - start,
        {
            let ghost sub = self.commands@.subrange(j - 1, end as int);
            assert(sub.subrange(1, sub.len() as int) =~= self.commands@.subrange(j as int, end as int));
            assert(sub[0] == self.commands@[j - 1]);
            assert(self.commands@[j - 1].wf());
            let c = self.commands[j - 1];
            let n: usize = match c {
                Command::Skip { chars } => chars as usize,
                Command::Delete { chars } => chars as usize,
                Command::Replace { .. } => 1,
                Command::Insert { .. } => 0,
            };
            total = total + n;
            j = j - 1;
        }
        total
    }

    /// Stems `word` by the rules of the multi-trie.
    pub fn stem(&self, word: &str) -> (r: Outcome)
        requires
            self.wf(),
        ensures
            r.view_opt() == stem_spec(TableView::Multi(self@), word@),
    {
        let w = chars_of(word);
        if w.len() <= MAX_UNSTEMMED_LEN {
            return Outcome::Unchanged;
        }
        match self.compose(&w) {
            None => Outcome::Unchanged,
            Some(cs) => match apply_commands(&w, &cs) {
                Some(v) => Outcome::Stemmed(string_of(v.as_slice())),
                None => Outcome::Unchanged,
            },
        }
    }
}

/// The command string an optional command index of `t` stands for.
pub open spec fn cmd_text(t: TrieView, o: Option<u32>) -> Option<Seq<char>> {
    match o {
        Some(c) => Some(t.cmds[c as int]),
        None => None,
    }
}

/// Two tries with the same rows, characters, next rows, root and direction,
/// whose cells carry commands of the same text.
pub open spec fn same_answers(t: TrieView, p: TrieView) -> bool {
    &&& t.rows.len() == p.rows.len()
    &&& t.root == p.root
    &&& t.forward == p.forward
    &&& forall|r: int|
        0 <= r < t.rows.len() ==> (#[trigger] t.rows[r]).chars == p.rows[r].chars
            && t.rows[r].cells.len() == p.rows[r].cells.len()
    &&& forall|r: int, i: int|
        0 <= r < t.rows.len() && 0 <= i < t.rows[r].cells.len() ==> (#[trigger] t.rows[r].cells[i]).refr
            == p.rows[r].cells[i].refr && cmd_text(t, t.rows[r].cells[i].cmd) == cmd_text(
            p,
            p.rows[r].cells[i].cmd,
        )
}

proof fn lemma_walk_same(
    t: TrieView,
    p: TrieView,
    row: int,
    key: Seq<char>,
    i: int,
    bt: Option<u32>,
    bp: Option<u32>,
)
    requires
        t.wf(),
        p.wf(),
        same_answers(t, p),
        0 <= row < t.rows.len(),
        cmd_text(t, bt) == cmd_text(p, bp),
    ensures
        cmd_text(t, t.walk(row, key, i, bt)) == cmd_text(p, p.walk(row, key, i, bp)),
    decreases key.len() - i,
{
    let ch = key_char(key, t.forward, i);
    let tr = t.rows[row];
    let pr = p.rows[row];
    assert(tr.chars == pr.chars && tr.cells.len() == pr.cells.len());
    assert(tr.wf() && pr.wf());
    if tr.has(ch) {
        let j = choose|j: int| 0 <= j < tr.chars.len() && tr.chars[j] == ch;
        assert(pr.cell_of(ch) == Some(pr.cells[j]));
        assert(tr.cells[j].refr == pr.cells[j].refr);
        let c = tr.cells[j];
        assert(below(c.refr, t.rows.len() as int));
        if i < key.len() - 1 {
            let b1 = if c.cmd is Some {
                c.cmd
            } else {
                bt
            };
            let b2 = if pr.cells[j].cmd is Some {
                pr.cells[j].cmd
            } else {
                bp
            };
            match c.refr {
                Some(n) => lemma_walk_same(t, p, n as int, key, i + 1, b1, b2),
                None => {},
            }
        }
    } else {
        assert(!pr.has(ch));
    }
}

/// Two such tries answer every key alike.
pub proof fn lemma_same_answers_path(t: TrieView, p: TrieView, key: Seq<char>)
    requires
        t.wf(),
        p.wf(),
        same_answers(t, p),
    ensures
        t.last_on_path(key) == p.last_on_path(key),
{
    lemma_walk_same(t, p, t.root as int, key, 0, None, None);
}

/// Stacks of tries that answer alike compose alike.
proof fn lemma_compose_same(
    a: Seq<TrieView>,
    b: Seq<TrieView>,
    i: int,
    key: Seq<char>,
    prev: Option<Seq<char>>,
    last_ch: char,
    acc: Seq<char>,
)
    requires
        a.len() == b.len(),
        forall|j: int| 0 <= j < a.len() ==> (#[trigger] a[j]).wf() && b[j].wf() && same_answers(a[j], b[j]),
    ensures
        compose_from(a, i, key, prev, last_ch, acc) == compose_from(b, i, key, prev, last_ch, acc),
    decreases a.len() - i,
{
    if 0 <= i < a.len() {
        assert(a[i].wf() && b[i].wf() && same_answers(a[i], b[i]));
        lemma_same_answers_path(a[i], b[i], key);
        match a[i].last_on_path(key) {
            Some(r) => {
                if !(is_sentinel(r) || r.len() < 2 || ((last_ch == '-' || last_ch == 'D') && r[0] == last_ch)) {
                    if r[0] == '-' {
                        let n = prev_length(prev) + length_pp_spec(r);
                        if n < key.len() {
                            lemma_compose_same(a, b, i + 1, skip_key(key, n, a[i].forward), Some(r), r[r.len() - 2], acc + r);
                        }
                    } else {
                        lemma_compose_same(a, b, i + 1, key, Some(r), r[r.len() - 2], acc + r);
                    }
                }
            },
            None => {},
        }
    }
}

/// Multi-tries whose tries answer alike stem every word alike.
pub proof fn lemma_same_stems(a: MultiView, b: MultiView, word: Seq<char>)
    requires
        a.tries.len() == b.tries.len(),
        forall|j: int|
            0 <= j < a.tries.len() ==> (#[trigger] a.tries[j]).wf() && b.tries[j].wf() && same_answers(
                a.tries[j],
                b.tries[j],
            ),
    ensures
        stem_spec(TableView::Multi(a), word) == stem_spec(TableView::Multi(b), word),
{
    lemma_compose_same(a.tries, b.tries, 0, word, None, ' ', Seq::empty());
}

/// The op character of a command.
fn op_char(c: &Command) -> (r: char)
    ensures
        r == c.op(),
{
    match c {
        Command::Skip { .. } => '-',
        Command::Delete { .. } => 'D',
        Command::Replace { .. } => 'R',
        Command::Insert { .. } => 'I',
    }
}

/// The text of a non-empty run of well-formed commands starts with the op
/// of its first command, and its last pair starts with the op of its last.
proof fn lemma_text_ends(cs: Seq<Command>)
    requires
        cs.len() > 0,
        commands_wf(cs),
    ensures
        commands_text(cs)[0] == cs[0].op(),
        commands_text(cs)[commands_text(cs).len() - 2] == cs[cs.len() - 1].op(),
{
    lemma_command_text(cs[0]);
    let n = cs.len();
    let front = cs.subrange(0, n - 1);
    let last = seq![cs[n - 1]];
    assert(cs =~= front + last);
    lemma_commands_text_concat(front, last);
    lemma_commands_text_len(front);
    assert(last.subrange(1, 1) =~= Seq::<Command>::empty());
    assert(commands_text(Seq::<Command>::empty()) =~= Seq::<char>::empty());
    assert(commands_text(last) == cs[n - 1].text() + commands_text(last.subrange(1, 1)));
    assert(commands_text(last) =~= cs[n - 1].text());
    lemma_command_text(cs[n - 1]);
    let t = commands_text(cs);
    assert(t == commands_text(front) + cs[n - 1].text());
    assert(t[t.len() - 2] == cs[n - 1].text()[0]);
}

} // verus!
