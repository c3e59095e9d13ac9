//! Stacks of tries whose answers are composed into one command string.
use vstd::prelude::*;

use crate::edit::{cannot_follow, is_sentinel, length_pp, length_pp_spec, pairs_valid};
use crate::text::{chars_of, string_of};
use crate::trie::{Trie, TrieView};

verus! {

/// An ordered stack of tries whose answers are concatenated.
#[derive(Clone, Debug)]
pub struct MultiTrie {
    pub tries: Vec<Trie>,
    /// Carried through serialization; not consulted by the lookup.
    pub forward: bool,
    /// Carried through serialization; not consulted by the lookup.
    pub by: i32,
}

/// A multi-trie whose tries are composed with adjacency and key-rewriting
/// rules.
#[derive(Clone, Debug)]
pub struct MultiTrie2 {
    pub t: MultiTrie,
}

/// What a multi-trie holds.
pub struct MultiView {
    pub tries: Seq<TrieView>,
    pub forward: bool,
    pub by: i32,
}

impl MultiView {
    /// Every trie of the stack is well formed.
    pub open spec fn wf(&self) -> bool {
        forall|i: int| 0 <= i < self.tries.len() ==> #[trigger] self.tries[i].wf()
    }

    /// The concatenated answer of all tries to `key`.
    pub open spec fn concat_on_path(&self, key: Seq<char>) -> Option<Seq<char>> {
        concat_from(self.tries, 0, key, Seq::empty())
    }

    /// The composed answer of the tries to `key`.
    pub open spec fn compose_on_path(&self, key: Seq<char>) -> Option<Seq<char>> {
        compose_from(self.tries, 0, key, None, ' ', Seq::empty())
    }
}

impl View for MultiTrie {
    type V = MultiView;

    open spec fn view(&self) -> MultiView {
        MultiView {
            tries: self.tries@.map_values(|t: Trie| t@),
            forward: self.forward,
            by: self.by,
        }
    }
}

impl View for MultiTrie2 {
    type V = MultiView;

    open spec fn view(&self) -> MultiView {
        self.t@
    }
}

/// The concatenation of the answers of `tries[i..]` to `key`, appended to
/// `acc`; the sentinel stops with what has been gathered, a missing answer
/// gives `None`.
pub open spec fn concat_from(tries: Seq<TrieView>, i: int, key: Seq<char>, acc: Seq<char>) -> Option<
    Seq<char>,
>
    decreases tries.len() - i,
{
    if i >= tries.len() || i < 0 {
        Some(acc)
    } else {
        match tries[i].last_on_path(key) {
            None => None,
            Some(r) => if is_sentinel(r) {
                Some(acc)
            } else {
                concat_from(tries, i + 1, key, acc + r)
            },
        }
    }
}

/// `key` with `n` characters dropped in trie direction: its first `n` when
/// `forward`, its last `n` otherwise.
pub open spec fn skip_key(key: Seq<char>, n: int, forward: bool) -> Seq<char> {
    if forward {
        key.subrange(n, key.len() as int)
    } else {
        key.subrange(0, key.len() - n)
    }
}

/// `length_pp_spec` of an optional command, zero when absent.
pub open spec fn prev_length(prev: Option<Seq<char>>) -> int {
    match prev {
        Some(p) => length_pp_spec(p),
        None => 0,
    }
}

/// The composition of `tries[i..]` on `key`, appended to `acc`; `prev` is
/// the previous trie's command and `last_ch` the op of its last pair.
/// Any stop (no answer, the sentinel, a forbidden adjacency, a skip that
/// would exhaust the key) gives `None`. The key never runs empty, so it is
/// always the last non-empty key.
pub open spec fn compose_from(
    tries: Seq<TrieView>,
    i: int,
    key: Seq<char>,
    prev: Option<Seq<char>>,
    last_ch: char,
    acc: Seq<char>,
) -> Option<Seq<char>>
    decreases tries.len() - i,
{
    if i >= tries.len() || i < 0 {
        Some(acc)
    } else {
        match tries[i].last_on_path(key) {
            None => None,
            Some(r) => if is_sentinel(r) || r.len() < 2 || ((last_ch == '-' || last_ch == 'D')
                && r[0] == last_ch) {
                None
            } else if r[0] == '-' {
                let n = prev_length(prev) + length_pp_spec(r);
                if n >= key.len() {
                    None
                } else {
                    let k2 = skip_key(key, n, tries[i].forward);
                    compose_from(tries, i + 1, k2, Some(r), r[r.len() - 2], acc + r)
                }
            } else {
                compose_from(tries, i + 1, key, Some(r), r[r.len() - 2], acc + r)
            },
        }
    }
}

impl MultiTrie {
    pub open spec fn wf(&self) -> bool {
        self@.wf()
    }

    /// Concatenates the answers of the tries to `key`, in order. The sentinel
    /// stops with what has been gathered so far; a trie without an answer
    /// gives `None`.
    pub fn get_last_on_path(&self, key: &str) -> (r: Option<String>)
        requires
            self.wf(),
            key@.len() > 0,
        ensures
            r matches Some(s) ==> self@.concat_on_path(key@) == Some(s@),
            r is None ==> self@.concat_on_path(key@) is None,
    {
        let k = chars_of(key);
        assert(k@.subrange(0, k@.len() as int) == k@);
        let mut result: Vec<char> = Vec::new();
        let mut i: usize = 0;
        while i < self.tries.len()
            invariant
                self.wf(),
                k@ == key@,
                k@.subrange(0, k@.len() as int) == key@,
                k@.len() > 0,
                i <= self.tries@.len(),
                self@.concat_on_path(key@) == concat_from(self@.tries, i as int, key@, result@),
            decreases self.tries@.len() - i,
        {
            let t = &self.tries[i];
            assert(self@.tries[i as int] == t@);
            assert(t.wf());
            match t.last_index_on_path(&k, 0, k.len()) {
                None => {
                    return None;
                },
                Some(n) => {
                    let mut c = chars_of(t.cmds[n as usize].as_str());
                    assert(t@.cmds[n as int] == t.cmds@[n as int]@);
                    if c.len() == 1 && c[0] == '*' {
                        assert(c@ =~= seq!['*']);
                        return Some(string_of(result.as_slice()));
                    }
                    assert(!is_sentinel(c@));
                    result.append(&mut c);
                },
            }
            i = i + 1;
        }
        Some(string_of(result.as_slice()))
    }
}

impl MultiTrie2 {
    pub open spec fn wf(&self) -> bool {
        self@.wf()
    }

    /// The composed command for the word `word`.
    pub fn lookup_chars(&self, word: &Vec<char>) -> (r: Option<Vec<char>>)
        requires
            self.wf(),
            word@.len() > 0,
        ensures
            r matches Some(v) ==> self@.compose_on_path(word@) == Some(v@),
            r is None ==> self@.compose_on_path(word@) is None,
    {
        let tries = &self.t.tries;
        let mut result: Vec<char> = Vec::new();
        let mut lo: usize = 0;
        let mut hi: usize = word.len();
        let ghost mut prev: Option<Seq<char>> = None;
        let mut prev_len: usize = 0;
        let mut last_ch: char = ' ';
        let mut i: usize = 0;
        assert(word@.subrange(0, word@.len() as int) == word@);
        while i < tries.len()
            invariant
                self.wf(),
                tries == &self.t.tries,
                i <= tries@.len(),
                lo < hi <= word@.len(),
                prev_len <= 27 * crate::edit::MAX_CMD_LEN,
                prev_len == prev_length(prev),
                self@.compose_on_path(word@) == compose_from(
                    self@.tries,
                    i as int,
                    word@.subrange(lo as int, hi as int),
                    prev,
                    last_ch,
                    result@,
                ),
            decreases tries@.len() - i,
        {
            let t = &tries[i];
            assert(self@.tries[i as int] == t@);
            assert(t.wf());
            let ghost key = word@.subrange(lo as int, hi as int);
            let n = match t.last_index_on_path(word, lo, hi) {
                None => {
                    return None;
                },
                Some(n) => n,
            };
            let mut r = chars_of(t.cmds[n as usize].as_str());
            assert(t@.cmds[n as int] == t.cmds@[n as int]@);
            assert(crate::edit::valid_cmd(t.cmds@[n as int]@));
            if r.len() == 1 && r[0] == '*' {
                assert(r@ =~= seq!['*']);
                return None;
            }
            if r.len() < 2 {
                return None;
            }
            assert(pairs_valid(r@));
            if cannot_follow(last_ch, r[0]) {
                return None;
            }
            let new_last = r[r.len() - 2];
            let r_len = length_pp(&r);
            proof {
                lemma_length_pp_bound(r@);
            }
            if r[0] == '-' {
                let skip = prev_len + r_len;
                if skip >= hi - lo {
                    return None;
                }
                if t.forward {
                    lo = lo + skip;
                } else {
                    hi = hi - skip;
                }
                assert(word@.subrange(lo as int, hi as int) =~= crate::multitrie::skip_key(
                    key,
                    skip as int,
                    t.forward,
                ));
            }
            prev_len = r_len;
            proof {
                prev = Some(r@);
            }
            result.append(&mut r);
            last_ch = new_last;
            i = i + 1;
        }
        Some(result)
    }

    /// The composed command string for `key`, or `None` when any trie stops
    /// the composition.
    pub fn get_last_on_path(&self, key: &str) -> (r: Option<String>)
        requires
            self.wf(),
            key@.len() > 0,
        ensures
            r matches Some(s) ==> self@.compose_on_path(key@) == Some(s@),
            r is None ==> self@.compose_on_path(key@) is None,
    {
        let k = chars_of(key);
        match self.lookup_chars(&k) {
            Some(v) => Some(string_of(v.as_slice())),
            None => None,
        }
    }
}

/// A trie that answers with the sentinel `"*"` stops the composition with no
/// result, wherever it stands in the stack.
pub proof fn lemma_sentinel_declines(
    tries: Seq<TrieView>,
    i: int,
    key: Seq<char>,
    prev: Option<Seq<char>>,
    last_ch: char,
    acc: Seq<char>,
)
    requires
        0 <= i < tries.len(),
        tries[i].last_on_path(key) == Some(seq!['*']),
    ensures
        compose_from(tries, i, key, prev, last_ch, acc) is None,
{
}

/// A skip that follows a skip, or a deletion that follows a deletion, across
/// two consecutive tries stops the composition with no result: `last_ch` is
/// the op of the last pair of the previous trie's command.
pub proof fn lemma_adjacency_declines(
    tries: Seq<TrieView>,
    i: int,
    key: Seq<char>,
    prev: Option<Seq<char>>,
    last_ch: char,
    acc: Seq<char>,
    r: Seq<char>,
)
    requires
        0 <= i < tries.len(),
        last_ch == '-' || last_ch == 'D',
        tries[i].last_on_path(key) == Some(r),
        r.len() > 0,
        r[0] == last_ch,
    ensures
        compose_from(tries, i, key, prev, last_ch, acc) is None,
{
}

/// Once the composition of `word` reaches trie `i` (in the state `key`,
/// `prev`, `last_ch`, `acc`), a sentinel answer there leaves the word with
/// no command.
pub proof fn lemma_reached_sentinel_declines(
    m: MultiView,
    word: Seq<char>,
    i: int,
    key: Seq<char>,
    prev: Option<Seq<char>>,
    last_ch: char,
    acc: Seq<char>,
)
    requires
        0 <= i < m.tries.len(),
        m.compose_on_path(word) == compose_from(m.tries, i, key, prev, last_ch, acc),
        m.tries[i].last_on_path(key) == Some(seq!['*']),
    ensures
        m.compose_on_path(word) is None,
{
    lemma_sentinel_declines(m.tries, i, key, prev, last_ch, acc);
}

/// Once the composition of `word` reaches trie `i`, where the previous
/// command's last pair has op `last_ch`, a command there that starts with
/// the same skip or deletion op leaves the word with no command.
pub proof fn lemma_reached_adjacency_declines(
    m: MultiView,
    word: Seq<char>,
    i: int,
    key: Seq<char>,
    prev: Option<Seq<char>>,
    last_ch: char,
    acc: Seq<char>,
    r: Seq<char>,
)
    requires
        0 <= i < m.tries.len(),
        m.compose_on_path(word) == compose_from(m.tries, i, key, prev, last_ch, acc),
        last_ch == '-' || last_ch == 'D',
        m.tries[i].last_on_path(key) == Some(r),
        r.len() > 0,
        r[0] == last_ch,
    ensures
        m.compose_on_path(word) is None,
{
    lemma_adjacency_declines(m.tries, i, key, prev, last_ch, acc, r);
}

/// Two consecutive tries whose single-pair commands are both skips, or both
/// deletions, stop the composition with no result.
pub proof fn lemma_consecutive_same_op_declines(
    tries: Seq<TrieView>,
    key: Seq<char>,
    r1: Seq<char>,
    r2: Seq<char>,
)
    requires
        tries.len() >= 2,
        key.len() > 0,
        tries[0].last_on_path(key) == Some(r1),
        r1.len() == 2,
        r1[0] == '-' || r1[0] == 'D',
        r2.len() > 0,
        r2[0] == r1[0],
        forall|k: Seq<char>| #[trigger] tries[1].last_on_path(k) == Some(r2),
    ensures
        compose_from(tries, 0, key, None, ' ', Seq::empty()) is None,
{
    let n = prev_length(None) + length_pp_spec(r1);
    if r1[0] == '-' && n < key.len() {
        let k2 = skip_key(key, n, tries[0].forward);
        assert(compose_from(tries, 0, key, None, ' ', Seq::empty()) == compose_from(
            tries,
            1,
            k2,
            Some(r1),
            r1[0],
            r1,
        ));
    } else if r1[0] == 'D' {
        assert(compose_from(tries, 0, key, None, ' ', Seq::empty()) == compose_from(
            tries,
            1,
            key,
            Some(r1),
            r1[0],
            r1,
        ));
    }
}

impl crate::trie::TrieGet for MultiTrie {
    open spec fn ready(&self) -> bool {
        self.wf()
    }

    open spec fn answer(&self, key: Seq<char>) -> Option<Seq<char>> {
        self@.concat_on_path(key)
    }

    fn get_last_on_path(&self, key: &str) -> (r: Option<String>) {
        MultiTrie::get_last_on_path(self, key)
    }
}

impl crate::trie::TrieGet for MultiTrie2 {
    open spec fn ready(&self) -> bool {
        self.wf()
    }

    open spec fn answer(&self, key: Seq<char>) -> Option<Seq<char>> {
        self@.compose_on_path(key)
    }

    fn get_last_on_path(&self, key: &str) -> (r: Option<String>) {
        MultiTrie2::get_last_on_path(self, key)
    }
}

/// A command of valid pairs accounts for at most 27 characters per pair.
proof fn lemma_length_pp_bound(c: Seq<char>)
    requires
        pairs_valid(c),
    ensures
        0 <= length_pp_spec(c) <= 27 * c.len(),
    decreases c.len(),
{
    if c.len() >= 2 {
        lemma_length_pp_bound(c.subrange(2, c.len() as int));
    }
}

} // verus!
