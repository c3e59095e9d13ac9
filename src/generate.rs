//! Conversion of a loaded multi-trie into the packed runtime table.
use vstd::prelude::*;

use crate::edit::{is_sentinel, pairs_valid, valid_cmd};
use crate::multitrie::{MultiTrie2, MultiView};
use crate::packed::{
    cell_view, cmd_text, commands_text, commands_wf, lemma_commands_text_concat,
    lemma_commands_text_valid, lemma_same_stems, same_answers, slice_text, Cell, Command,
    CommandSlice, Row, Stemmer, Trie, EOM,
};
use crate::stemmer::{stem_spec, TableView};
use crate::text::chars_of;
use crate::trie::TrieView;

verus! {

/// The largest command pool a packed table can index.
pub const MAX_POOL: usize = 0x100_0000;

/// A command string the packed form can hold: the sentinel, or one to
/// fifteen pairs.
pub open spec fn cmd_packable(c: Seq<char>) -> bool {
    is_sentinel(c) || (c.len() % 2 == 0 && 2 <= c.len() <= 30)
}

/// A trie the packed form can hold: its root is row 0, its rows fit a
/// 16-bit next-row index, and each command string fits a slice.
pub open spec fn trie_packable(t: TrieView) -> bool {
    &&& t.root == 0
    &&& t.rows.len() <= 0xFFFF
    &&& forall|c: int| 0 <= c < t.cmds.len() ==> cmd_packable(#[trigger] t.cmds[c])
}

/// The commands a command string adds to the pool.
pub open spec fn cmd_pairs(c: Seq<char>) -> int {
    if is_sentinel(c) {
        0
    } else {
        (c.len() / 2) as int
    }
}

/// The commands the first `n` command strings add to the pool.
pub open spec fn cmds_pairs(cs: Seq<Seq<char>>, n: int) -> int
    decreases n,
{
    if n <= 0 {
        0
    } else {
        cmds_pairs(cs, n - 1) + cmd_pairs(cs[n - 1])
    }
}

/// The size of the pool after the first `n` tries.
pub open spec fn pool_size(ts: Seq<TrieView>, n: int) -> int
    decreases n,
{
    if n <= 0 {
        0
    } else {
        pool_size(ts, n - 1) + cmds_pairs(ts[n - 1].cmds, ts[n - 1].cmds.len() as int)
    }
}

/// A multi-trie the packed form can hold.
pub open spec fn packable(m: MultiView) -> bool {
    &&& forall|i: int| 0 <= i < m.tries.len() ==> trie_packable(#[trigger] m.tries[i])
    &&& pool_size(m.tries, m.tries.len() as int) <= MAX_POOL
}

/// Slice value `k` stands for the command string `text` in `pool`.
pub open spec fn slice_ok(pool: Seq<Command>, k: u32, text: Seq<char>) -> bool {
    if is_sentinel(text) {
        k == EOM
    } else {
        &&& k != 0
        &&& k != EOM
        &&& CommandSlice(k).start_spec() + CommandSlice(k).len_spec() <= pool.len()
        &&& commands_text(
            pool.subrange(
                CommandSlice(k).start_spec(),
                CommandSlice(k).start_spec() + CommandSlice(k).len_spec(),
            ),
        ) == text
    }
}

/// The packed cell a trie cell becomes, with its command index mapped
/// through `slices`.
pub open spec fn packed_cell(c: crate::trie::Cell, slices: Seq<u32>) -> Cell {
    Cell {
        refr: match c.refr {
            Some(x) => (x + 1) as u16,
            None => 0,
        },
        cmds: match c.cmd {
            Some(k) => slices[k as int],
            None => 0,
        },
    }
}

/// The packed trie `p` has the rows of `t`, its cells mapped through
/// `slices`.
pub open spec fn mirrors(t: TrieView, p: Trie, slices: Seq<u32>) -> bool {
    &&& p.rows@.len() == t.rows.len()
    &&& p.forward == t.forward
    &&& forall|r: int|
        0 <= r < t.rows.len() ==> (#[trigger] p.rows@[r]).chars@ == t.rows[r].chars
            && p.rows@[r].cells@.len() == t.rows[r].cells.len()
    &&& forall|r: int, i: int|
        0 <= r < t.rows.len() && 0 <= i < t.rows[r].cells.len() ==> (
        #[trigger] p.rows@[r].cells@[i]) == packed_cell(t.rows[r].cells[i], slices)
}

proof fn lemma_slice_ok_grow(pool: Seq<Command>, pool2: Seq<Command>, k: u32, text: Seq<char>)
    requires
        slice_ok(pool, k, text),
        pool.len() <= pool2.len(),
        pool2.subrange(0, pool.len() as int) == pool,
    ensures
        slice_ok(pool2, k, text),
{
    if !is_sentinel(text) {
        let s = CommandSlice(k).start_spec();
        let l = CommandSlice(k).len_spec();
        assert(pool2.subrange(s, s + l) =~= pool.subrange(s, s + l)) by {
            assert forall|j: int| 0 <= j < l implies #[trigger] pool2.subrange(s, s + l)[j]
                == pool.subrange(s, s + l)[j] by {
                assert(pool2.subrange(0, pool.len() as int)[s + j] == pool2[s + j]);
            }
        }
    }
}

proof fn lemma_slice_texts_valid(pool: Seq<Command>, k: u32)
    requires
        commands_wf(pool),
    ensures
        valid_cmd(slice_text(pool, k)),
{
    if k != EOM {
        let s = CommandSlice(k).start_spec();
        let l = CommandSlice(k).len_spec();
        assert((k & 15u32) <= 15u32) by (bit_vector);
        if s + l <= pool.len() {
            let sub = pool.subrange(s, s + l);
            assert(commands_wf(sub)) by {
                assert forall|j: int| 0 <= j < sub.len() implies (#[trigger] sub[j]).wf() by {
                    assert(sub[j] == pool[s + j]);
                }
            }
            lemma_commands_text_valid(sub);
        } else {
            assert(pairs_valid(Seq::<char>::empty()));
        }
    }
}

/// A packed trie that mirrors a well-formed trie over a pool that holds its
/// command strings answers every key as that trie does.
proof fn lemma_mirror_same(t: TrieView, p: Trie, slices: Seq<u32>, pool: Seq<Command>)
    requires
        t.wf(),
        trie_packable(t),
        commands_wf(pool),
        mirrors(t, p, slices),
        slices.len() == t.cmds.len(),
        forall|c: int| 0 <= c < t.cmds.len() ==> slice_ok(pool, #[trigger] slices[c], t.cmds[c]),
    ensures
        p.model(pool).wf(),
        same_answers(t, p.model(pool)),
{
    let m = p.model(pool);
    assert forall|r: int| 0 <= r < t.rows.len() implies (#[trigger] t.rows[r]).chars
        == m.rows[r].chars && t.rows[r].cells.len() == m.rows[r].cells.len() by {
        assert(m.rows[r] == p.rows@[r].model());
        assert(p.rows@[r].chars@ == t.rows[r].chars);
    }
    assert forall|r: int, i: int|
        0 <= r < t.rows.len() && 0 <= i < t.rows[r].cells.len() implies (
        #[trigger] t.rows[r].cells[i]).refr == m.rows[r].cells[i].refr && cmd_text(
        t,
        t.rows[r].cells[i].cmd,
    ) == cmd_text(m, m.rows[r].cells[i].cmd) by {
        assert(m.rows[r] == p.rows@[r].model());
        let c = t.rows[r].cells[i];
        let pc = p.rows@[r].cells@[i];
        assert(pc == packed_cell(c, slices));
        assert(m.rows[r].cells[i] == cell_view(pc));
        assert(t.rows[r].wf());
        match c.refr {
            Some(x) => {
                assert(x < t.rows.len());
            },
            None => {},
        }
        match c.cmd {
            Some(k) => {
                assert(k < t.cmds.len());
                assert(slice_ok(pool, slices[k as int], t.cmds[k as int]));
                assert(slices[k as int] != 0);
                lemma_slice_ok_text(pool, slices[k as int], t.cmds[k as int]);
                assert(m.cmds[slices[k as int] as int] == slice_text(pool, slices[k as int]));
            },
            None => {},
        }
    }
    assert forall|r: int| 0 <= r < m.rows.len() implies #[trigger] m.rows[r].wf() by {
        assert(m.rows[r] == p.rows@[r].model());
        assert(t.rows[r].wf());
    }
    assert forall|r: int, i: int|
        0 <= r < m.rows.len() && 0 <= i < m.rows[r].cells.len() implies crate::trie::below(
        #[trigger] m.rows[r].cells[i].refr,
        m.rows.len() as int,
    ) by {
        assert(t.rows[r].cells[i].refr == m.rows[r].cells[i].refr);
    }
    assert forall|c: int| 0 <= c < m.cmds.len() implies valid_cmd(#[trigger] m.cmds[c]) by {
        lemma_slice_texts_valid(pool, c as u32);
    }
}

proof fn lemma_slice_ok_text(pool: Seq<Command>, k: u32, text: Seq<char>)
    requires
        slice_ok(pool, k, text),
    ensures
        slice_text(pool, k) == text,
{
}

proof fn lemma_cmds_pairs_mono(cs: Seq<Seq<char>>, a: int, b: int)
    requires
        0 <= a <= b <= cs.len(),
    ensures
        cmds_pairs(cs, a) <= cmds_pairs(cs, b),
    decreases b - a,
{
    if a < b {
        lemma_cmds_pairs_mono(cs, a, b - 1);
    }
}

proof fn lemma_pool_size_mono(ts: Seq<TrieView>, a: int, b: int)
    requires
        0 <= a <= b <= ts.len(),
    ensures
        pool_size(ts, a) <= pool_size(ts, b),
    decreases b - a,
{
    if a < b {
        lemma_pool_size_mono(ts, a, b - 1);
        assert(cmds_pairs(ts[b - 1].cmds, ts[b - 1].cmds.len() as int) >= 0) by {
            lemma_cmds_pairs_nonneg(ts[b - 1].cmds, ts[b - 1].cmds.len() as int);
        }
    }
}

proof fn lemma_cmds_pairs_nonneg(cs: Seq<Seq<char>>, n: int)
    ensures
        cmds_pairs(cs, n) >= 0,
    decreases n,
{
    if n > 0 {
        lemma_cmds_pairs_nonneg(cs, n - 1);
    }
}

/// Builds the packed runtime table from a loaded multi-trie.
pub struct RustGenerator {
    pub commands: Vec<Command>,
    pub tries: Vec<Trie>,
}

impl RustGenerator {
    /// The packed stemmer the generator holds.
    pub open spec fn stemmer_spec(&self) -> Stemmer {
        Stemmer { commands: self.commands, tries: self.tries }
    }

    /// Converts a multi-trie to the packed form: every command string is
    /// parsed once into the pool, every cell's command becomes a slice of
    /// it. The packed stemmer stems every word as the multi-trie does.
    /// `None` when the multi-trie does not fit the packed form.
    pub fn convert_java_multitrie(m: &MultiTrie2) -> (r: Option<RustGenerator>)
        requires
            m.wf(),
        ensures
            r is Some <==> packable(m@),
            r matches Some(g) ==> g.stemmer_spec().wf() && forall|w: Seq<char>|
                #[trigger] stem_spec(TableView::Multi(g.stemmer_spec()@), w) == stem_spec(
                    TableView::Multi(m@),
                    w,
                ),
    {
        let ghost mv = m@;
        let src = &m.t.tries;
        let mut commands: Vec<Command> = Vec::new();
        let mut tries: Vec<Trie> = Vec::new();
        let ghost mut all_slices: Seq<Seq<u32>> = Seq::empty();
        let mut i: usize = 0;
        while i < src.len()
            invariant
                mv == m@,
                mv.wf(),
                src == &m.t.tries,
                mv.tries.len() == src@.len(),
                i <= src@.len(),
                tries@.len() == i,
                all_slices.len() == i,
                commands_wf(commands@),
                commands@.len() == pool_size(mv.tries, i as int),
                commands@.len() <= MAX_POOL,
                forall|j: int| 0 <= j < i ==> trie_packable(#[trigger] mv.tries[j]),
                forall|j: int|
                    0 <= j < i ==> mirrors(mv.tries[j], #[trigger] tries@[j], all_slices[j])
                        && all_slices[j].len() == mv.tries[j].cmds.len(),
                forall|j: int, c: int|
                    0 <= j < i && 0 <= c < mv.tries[j].cmds.len() ==> slice_ok(
                        commands@,
                        #[trigger] all_slices[j][c],
                        mv.tries[j].cmds[c],
                    ),
            decreases src@.len() - i,
        {
            let t = &src[i];
            let ghost tv = mv.tries[i as int];
            assert(tv == t@);
            assert(tv.wf());
            if t.root != 0 || t.rows.len() > 0xFFFF {
                proof {
                    assert(!trie_packable(mv.tries[i as int]));
                }
                return None;
            }
            let mut slices: Vec<u32> = Vec::new();
            let mut c: usize = 0;
            while c < t.cmds.len()
                invariant
                    mv == m@,
                    mv.wf(),
                    tv == mv.tries[i as int],
                    tv == t@,
                    tv.wf(),
                    i < mv.tries.len(),
                    c <= t.cmds@.len(),
                    slices@.len() == c,
                    commands_wf(commands@),
                    commands@.len() == pool_size(mv.tries, i as int) + cmds_pairs(tv.cmds, c as int),
                    commands@.len() <= MAX_POOL,
                    forall|k: int| 0 <= k < c ==> cmd_packable(#[trigger] tv.cmds[k]),
                    forall|k: int| 0 <= k < c ==> slice_ok(commands@, #[trigger] slices@[k], tv.cmds[k]),
                    forall|j: int, k: int|
                        0 <= j < i && 0 <= k < mv.tries[j].cmds.len() ==> slice_ok(
                            commands@,
                            #[trigger] all_slices[j][k],
                            mv.tries[j].cmds[k],
                        ),
                decreases t.cmds@.len() - c,
            {
                let ghost text = tv.cmds[c as int];
                assert(text == t.cmds@[c as int]@);
                assert(valid_cmd(text));
                let cs = chars_of(t.cmds[c].as_str());
                let ghost pool0 = commands@;
                if cs.len() == 1 && cs[0] == '*' {
                    assert(cs@ =~= seq!['*']);
                    slices.push(EOM);
                } else {
                    assert(!is_sentinel(text));
                    if cs.len() % 2 != 0 || cs.len() < 2 || cs.len() > 30 {
                        return None;
                    }
                    let n = cs.len() / 2;
                    let start = commands.len();
                    if n > MAX_POOL - start {
                        proof {
                            lemma_pool_size_mono(mv.tries, i + 1, mv.tries.len() as int);
                            lemma_cmds_pairs_mono(tv.cmds, c + 1, tv.cmds.len() as int);
                        }
                        return None;
                    }
                    let mut q: usize = 0;
                    assert(commands@.subrange(start as int, start as int) =~= Seq::<Command>::empty());
                    assert(commands_text(Seq::<Command>::empty()) =~= Seq::<char>::empty());
                    assert(cs@.subrange(0, 0) =~= Seq::<char>::empty());
                    while q < n
                        invariant
                            n == cs@.len() / 2,
                            cs@.len() % 2 == 0,
                            cs@.len() <= 30,
                            cs@ == text,
                            pairs_valid(text),
                            q <= n,
                            start == pool0.len(),
                            commands@.len() == start + q,
                            commands@.subrange(0, start as int) == pool0,
                            commands_wf(commands@),
                            commands_text(commands@.subrange(start as int, (start + q) as int))
                                == cs@.subrange(0, 2 * q as int),
                        decreases n - q,
                    {
                        proof {
                            lemma_pairs_valid_at(cs@, 2 * q as int);
                        }
                        let cmd = match Command::parse(cs[2 * q], cs[2 * q + 1]) {
                            Some(x) => x,
                            None => {
                                return None;
                            },
                        };
                        let ghost before = commands@.subrange(start as int, (start + q) as int);
                        commands.push(cmd);
                        proof {
                            let after = commands@.subrange(start as int, (start + q + 1) as int);
                            assert(after =~= before + seq![cmd]);
                            lemma_commands_text_concat(before, seq![cmd]);
                            assert(commands_text(seq![cmd]) == cmd.text() + commands_text(
                                seq![cmd].subrange(1, 1),
                            ));
                            assert(seq![cmd].subrange(1, 1) =~= Seq::<Command>::empty());
                            assert(commands_text(seq![cmd]) =~= cmd.text());
                            assert(cs@.subrange(0, 2 * (q + 1)) =~= cs@.subrange(0, 2 * q as int)
                                + seq![cs@[2 * q as int], cs@[2 * q + 1]]);
                            assert(commands@.subrange(0, start as int) =~= pool0);
                            assert(commands_wf(commands@)) by {
                                assert forall|x: int| 0 <= x < commands@.len() implies (
                                #[trigger] commands@[x]).wf() by {
                                    if x < commands@.len() - 1 {
                                        assert(commands@[x] == commands@.subrange(0, commands@.len() - 1)[x]);
                                    }
                                }
                            }
                        }
                        q = q + 1;
                    }
                    assert(cs@.subrange(0, 2 * n as int) =~= cs@);
                    let sl = CommandSlice::new(start, n);
                    slices.push(sl.0);
                }
                assert(commands@.subrange(0, pool0.len() as int) =~= pool0);
                proof {
                    assert forall|k: int| 0 <= k < c + 1 implies slice_ok(
                        commands@,
                        #[trigger] slices@[k],
                        tv.cmds[k],
                    ) by {
                        if k < c {
                            lemma_slice_ok_grow(pool0, commands@, slices@[k], tv.cmds[k]);
                        }
                    }
                    assert forall|j: int, k: int|
                        0 <= j < i && 0 <= k < mv.tries[j].cmds.len() implies slice_ok(
                        commands@,
                        #[trigger] all_slices[j][k],
                        mv.tries[j].cmds[k],
                    ) by {
                        lemma_slice_ok_grow(pool0, commands@, all_slices[j][k], mv.tries[j].cmds[k]);
                    }
                }
                c = c + 1;
            }
            let mut rows: Vec<Row> = Vec::new();
            let mut r: usize = 0;
            while r < t.rows.len()
                invariant
                    tv == t@,
                    tv.wf(),
                    tv.rows.len() <= 0xFFFF,
                    slices@.len() == tv.cmds.len(),
                    r <= tv.rows.len(),
                    rows@.len() == r,
                    forall|x: int|
                        0 <= x < r ==> (#[trigger] rows@[x]).chars@ == tv.rows[x].chars
                            && rows@[x].cells@.len() == tv.rows[x].cells.len(),
                    forall|x: int, y: int|
                        0 <= x < r && 0 <= y < tv.rows[x].cells.len() ==> (
                        #[trigger] rows@[x].cells@[y]) == packed_cell(tv.rows[x].cells[y], slices@),
                decreases tv.rows.len() - r,
            {
                let row = &t.rows[r];
                assert(tv.rows[r as int] == row@);
                assert(tv.rows[r as int].wf());
                let mut cells: Vec<Cell> = Vec::new();
                let mut y: usize = 0;
                while y < row.cells.len()
                    invariant
                        tv == t@,
                        tv.wf(),
                        tv.rows.len() <= 0xFFFF,
                        r < tv.rows.len(),
                        tv.rows[r as int] == row@,
                        slices@.len() == tv.cmds.len(),
                        y <= row.cells@.len(),
                        cells@.len() == y,
                        forall|z: int|
                            0 <= z < y ==> (#[trigger] cells@[z]) == packed_cell(
                                tv.rows[r as int].cells[z],
                                slices@,
                            ),
                    decreases row.cells@.len() - y,
                {
                    let cell = row.cells[y];
                    assert(tv.rows[r as int].cells[y as int] == cell);
                    let refr: u16 = match cell.refr {
                        Some(x) => (x + 1) as u16,
                        None => 0,
                    };
                    let cmds: u32 = match cell.cmd {
                        Some(k) => slices[k as usize],
                        None => 0,
                    };
                    cells.push(Cell { refr, cmds });
                    y = y + 1;
                }
                rows.push(Row { chars: row.chars.clone(), cells });
                r = r + 1;
            }
            let pt = Trie { rows, forward: t.forward };
            proof {
                assert(mirrors(tv, pt, slices@));
                assert(cmds_pairs(tv.cmds, tv.cmds.len() as int) == commands@.len() - pool_size(
                    mv.tries,
                    i as int,
                ));
                assert(trie_packable(tv));
                all_slices = all_slices.push(slices@);
            }
            tries.push(pt);
            i = i + 1;
        }
        let g = RustGenerator { commands, tries };
        proof {
            let st = g.stemmer_spec();
            let pool = g.commands@;
            assert forall|j: int| 0 <= j < mv.tries.len() implies (#[trigger] mv.tries[j]).wf()
                && st@.tries[j].wf() && same_answers(mv.tries[j], st@.tries[j]) by {
                assert(st@.tries[j] == g.tries@[j].model(pool));
                lemma_mirror_same(mv.tries[j], g.tries@[j], all_slices[j], pool);
            }
            assert forall|w: Seq<char>|
                #[trigger] stem_spec(TableView::Multi(st@), w) == stem_spec(TableView::Multi(mv), w) by {
                lemma_same_stems(st@, mv, w);
                lemma_same_stems(mv, st@, w);
            }
        }
        Some(g)
    }

    /// The packed stemmer the generator built.
    pub fn into_stemmer(self) -> (r: Stemmer)
        ensures
            r == self.stemmer_spec(),
    {
        Stemmer { commands: self.commands, tries: self.tries }
    }
}

/// The pair at `k` of valid pairs is a valid pair.
proof fn lemma_pairs_valid_at(c: Seq<char>, k: int)
    requires
        pairs_valid(c),
        c.len() % 2 == 0,
        0 <= k,
        k % 2 == 0,
        k + 2 <= c.len(),
    ensures
        crate::edit::valid_pair(c[k], c[k + 1]),
    decreases k,
{
    if k > 0 {
        let rest = c.subrange(2, c.len() as int);
        lemma_pairs_valid_at(rest, k - 2);
        assert(rest[k - 2] == c[k] && rest[k - 1] == c[k + 1]);
    }
}

} // verus!
