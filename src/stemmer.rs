//! The stemmer: a table of either one trie or a multi-trie, and the rule that
//! turns its command into a stem.
use vstd::prelude::*;

use crate::edit::{apply_chars, apply_spec};
use crate::multitrie::{MultiTrie2, MultiView};
use crate::text::{chars_of, string_of};
use crate::trie::{Trie, TrieView};

verus! {

/// Words of at most this many characters are never stemmed.
pub const MAX_UNSTEMMED_LEN: usize = 3;

/// The kind of table a stemmer holds.
#[derive(Clone, Debug)]
pub enum Table {
    Single(Trie),
    Multi(MultiTrie2),
}

/// What a table holds.
pub enum TableView {
    Single(TrieView),
    Multi(MultiView),
}

impl TableView {
    pub open spec fn wf(&self) -> bool {
        match self {
            TableView::Single(t) => t.wf(),
            TableView::Multi(m) => m.wf(),
        }
    }

    /// The command string the table holds for `word`.
    pub open spec fn command_for(&self, word: Seq<char>) -> Option<Seq<char>> {
        match self {
            TableView::Single(t) => t.last_on_path(word),
            TableView::Multi(m) => m.compose_on_path(word),
        }
    }
}

impl View for Table {
    type V = TableView;

    open spec fn view(&self) -> TableView {
        match self {
            Table::Single(t) => TableView::Single(t@),
            Table::Multi(m) => TableView::Multi(m@),
        }
    }
}

/// The result of stemming a word: the word itself, or a new string.
#[derive(Clone, Debug)]
pub enum Outcome {
    Unchanged,
    Stemmed(String),
}

impl Outcome {
    /// The stemmed form, or `None` when the word is left as it is.
    pub open spec fn view_opt(&self) -> Option<Seq<char>> {
        match self {
            Outcome::Unchanged => None,
            Outcome::Stemmed(s) => Some(s@),
        }
    }

    /// The text of the outcome for the word `word`.
    pub open spec fn text_of(&self, word: Seq<char>) -> Seq<char> {
        match self {
            Outcome::Unchanged => word,
            Outcome::Stemmed(s) => s@,
        }
    }

    /// The text of the outcome for the word `word`.
    pub fn text(&self, word: &str) -> (r: String)
        ensures
            r@ == self.text_of(word@),
    {
        match self {
            Outcome::Unchanged => word.to_owned(),
            Outcome::Stemmed(s) => s.clone(),
        }
    }
}

/// A stemmer over a loaded table.
#[derive(Clone, Debug)]
pub struct Stemmer {
    /// The method string the table was stored with.
    pub method: String,
    pub table: Table,
}

/// The stem of `word` under `table`: words of at most three characters stay
/// as they are, and so does a word for which the table holds no command or
/// whose command fails or leaves nothing.
pub open spec fn stem_spec(table: TableView, word: Seq<char>) -> Option<Seq<char>> {
    if word.len() <= MAX_UNSTEMMED_LEN {
        None
    } else {
        match table.command_for(word) {
            None => None,
            Some(c) => apply_spec(word, c),
        }
    }
}

impl Stemmer {
    pub open spec fn wf(&self) -> bool {
        self.table@.wf()
    }

    /// A stemmer over `table`, stored with the method string `method`.
    pub fn new(method: String, table: Table) -> (r: Stemmer)
        ensures
            r.method == method,
            r.table == table,
    {
        Stemmer { method, table }
    }

    /// The command string the table holds for the non-empty word `word`.
    pub fn table_command(&self, word: &str) -> (r: Option<String>)
        requires
            self.wf(),
            word@.len() > 0,
        ensures
            r matches Some(s) ==> self.table@.command_for(word@) == Some(s@),
            r is None ==> self.table@.command_for(word@) is None,
    {
        match &self.table {
            Table::Single(t) => t.get_last_on_path(word),
            Table::Multi(m) => m.get_last_on_path(word),
        }
    }

    /// Stems `word`.
    pub fn stem(&self, word: &str) -> (r: Outcome)
        requires
            self.wf(),
        ensures
            r.view_opt() == stem_spec(self.table@, word@),
    {
        let w = chars_of(word);
        if w.len() <= MAX_UNSTEMMED_LEN {
            return Outcome::Unchanged;
        }
        let cmd = match &self.table {
            Table::Single(t) => {
                assert(w@.subrange(0, w@.len() as int) == w@);
                match t.last_index_on_path(&w, 0, w.len()) {
                    Some(n) => {
                        assert(t@.cmds[n as int] == t.cmds@[n as int]@);
                        Some(chars_of(t.cmds[n as usize].as_str()))
                    },
                    None => None,
                }
            },
            Table::Multi(m) => m.lookup_chars(&w),
        };
        match cmd {
            None => Outcome::Unchanged,
            Some(c) => match apply_chars(&w, &c) {
                Some(v) => Outcome::Stemmed(string_of(v.as_slice())),
                None => Outcome::Unchanged,
            },
        }
    }
}

/// A stemmer: turns a word into its stem, or leaves it as it is.
pub trait Stem {
    /// The stemmer's table is well formed.
    spec fn ready(&self) -> bool;

    /// The stem of `word`, or `None` when the word stays as it is.
    spec fn stem_of(&self, word: Seq<char>) -> Option<Seq<char>>;

    /// Stems `word`.
    fn stem(&self, word: &str) -> (r: Outcome)
        requires
            self.ready(),
        ensures
            r.view_opt() == self.stem_of(word@),
    ;
}

impl Stem for Stemmer {
    open spec fn ready(&self) -> bool {
        self.wf()
    }

    open spec fn stem_of(&self, word: Seq<char>) -> Option<Seq<char>> {
        stem_spec(self.table@, word)
    }

    fn stem(&self, word: &str) -> (r: Outcome) {
        Stemmer::stem(self, word)
    }
}

impl Stem for crate::packed::Stemmer {
    open spec fn ready(&self) -> bool {
        self.wf()
    }

    open spec fn stem_of(&self, word: Seq<char>) -> Option<Seq<char>> {
        stem_spec(TableView::Multi(self@), word)
    }

    fn stem(&self, word: &str) -> (r: Outcome) {
        crate::packed::Stemmer::stem(self, word)
    }
}

/// Stemming is a function of the table and the word: two calls on the same
/// stemmer and word give the same outcome.
pub proof fn lemma_stem_deterministic(s: Stemmer, word: Seq<char>, r1: Outcome, r2: Outcome)
    requires
        r1.view_opt() == stem_spec(s.table@, word),
        r2.view_opt() == stem_spec(s.table@, word),
    ensures
        r1.view_opt() == r2.view_opt(),
        r1.text_of(word) == r2.text_of(word),
{
}

/// A word of at most three characters is returned unchanged.
pub proof fn lemma_short_word_unchanged(s: Stemmer, word: Seq<char>)
    requires
        word.len() <= MAX_UNSTEMMED_LEN,
    ensures
        stem_spec(s.table@, word) is None,
{
}

/// A multi-trie table whose first trie answers a word with the sentinel
/// leaves the word unchanged.
pub proof fn lemma_first_sentinel_unchanged(m: MultiView, word: Seq<char>)
    requires
        m.tries.len() > 0,
        m.tries[0].last_on_path(word) == Some(seq!['*']),
    ensures
        stem_spec(TableView::Multi(m), word) is None,
{
    crate::multitrie::lemma_sentinel_declines(m.tries, 0, word, None, ' ', Seq::empty());
}

/// A command that would reach outside the word leaves the word unchanged:
/// the stemmer declines rather than fails.
pub proof fn lemma_failed_command_unchanged(table: TableView, word: Seq<char>, c: Seq<char>)
    requires
        table.command_for(word) == Some(c),
        apply_spec(word, c) is None,
    ensures
        stem_spec(table, word) is None,
{
}

} // verus!
