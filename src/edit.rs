//! The edit-command language: a command string is a sequence of
//! `(op, arg)` character pairs, applied to a word from its tail.
use vstd::prelude::*;

use crate::text::{chars_of, string_of};

verus! {

/// The longest command string a table can hold (a length-prefixed string).
pub const MAX_CMD_LEN: usize = 65535;

/// `c` is an ASCII lowercase letter.
pub open spec fn is_lower(c: char) -> bool {
    'a' <= c && c <= 'z'
}

/// The numeric value of a count argument: `'a'` is 0, `'b'` is 1, ...
pub open spec fn arg_value(c: char) -> int {
    (c as int) - ('a' as int)
}

/// One `(op, arg)` pair that a well-formed table may hold.
pub open spec fn valid_pair(op: char, arg: char) -> bool {
    ||| (op == '-' || op == 'D') && is_lower(arg)
    ||| op == 'R'
    ||| op == 'I'
}

/// Every complete pair of `c` is a valid pair (a trailing lone character is
/// ignored, as the interpreter ignores it).
pub open spec fn pairs_valid(c: Seq<char>) -> bool
    decreases c.len(),
{
    if c.len() < 2 {
        true
    } else {
        valid_pair(c[0], c[1]) && pairs_valid(c.subrange(2, c.len() as int))
    }
}

/// The end-of-multi-trie sentinel `"*"`.
pub open spec fn is_sentinel(c: Seq<char>) -> bool {
    c == seq!['*']
}

/// A command string that a well-formed table may hold: the sentinel, or
/// valid pairs, of a length that the on-disk string form can carry.
pub open spec fn valid_cmd(c: Seq<char>) -> bool {
    &&& c.len() <= MAX_CMD_LEN
    &&& (is_sentinel(c) || pairs_valid(c))
}

/// The number of source characters one pair accounts for.
pub open spec fn pair_length(op: char, arg: char) -> int {
    if op == '-' || op == 'D' {
        1 + arg_value(arg)
    } else if op == 'R' {
        1
    } else {
        0
    }
}

/// The number of source characters a command string accounts for.
pub open spec fn length_pp_spec(c: Seq<char>) -> int
    decreases c.len(),
{
    if c.len() < 2 {
        0
    } else {
        pair_length(c[0], c[1]) + length_pp_spec(c.subrange(2, c.len() as int))
    }
}

/// What the pairs whose op is `op` contribute to `length_pp_spec`.
pub open spec fn op_contribution(c: Seq<char>, op: char) -> int
    decreases c.len(),
{
    if c.len() < 2 {
        0
    } else {
        (if c[0] == op {
            pair_length(c[0], c[1])
        } else {
            0
        }) + op_contribution(c.subrange(2, c.len() as int), op)
    }
}

/// The length of a command string is the sum of what its skips, deletions
/// and replacements account for; insertions account for nothing.
pub proof fn lemma_length_pp_sum(c: Seq<char>)
    ensures
        length_pp_spec(c) == op_contribution(c, '-') + op_contribution(c, 'D') + op_contribution(
            c,
            'R',
        ),
        op_contribution(c, 'I') == 0,
    decreases c.len(),
{
    if c.len() >= 2 {
        lemma_length_pp_sum(c.subrange(2, c.len() as int));
    }
}

/// One pair applied at cursor `pos`: the new word and cursor, before the
/// step back that follows every pair; `None` where the pair reaches outside
/// the word or is not a command. A skip `-x` moves the cursor back by
/// `1 + (x - 'a')`; a deletion `Dx` removes the `1 + (x - 'a')` characters
/// ending at the cursor and leaves it on the first of them; a replacement
/// `Rx` overwrites the character at the cursor; an insertion `Ix` puts `x`
/// after the cursor and moves onto it.
pub open spec fn edit_step(w: Seq<char>, pos: int, op: char, arg: char) -> Option<(Seq<char>, int)> {
    if op == '-' {
        if is_lower(arg) {
            Some((w, pos - 1 - arg_value(arg)))
        } else {
            None
        }
    } else if op == 'R' {
        if 0 <= pos < w.len() {
            Some((w.update(pos, arg), pos))
        } else {
            None
        }
    } else if op == 'D' {
        if is_lower(arg) && 0 <= pos - arg_value(arg) && pos < w.len() {
            Some(
                (
                    w.subrange(0, pos - arg_value(arg)) + w.subrange(pos + 1, w.len() as int),
                    pos - arg_value(arg),
                ),
            )
        } else {
            None
        }
    } else if op == 'I' {
        if 0 <= pos + 1 <= w.len() {
            Some((w.insert(pos + 1, arg), pos + 1))
        } else {
            None
        }
    } else {
        None
    }
}

/// The pairs of `d` applied in order to `w`, starting at cursor `pos`.
pub open spec fn edit_pairs(w: Seq<char>, pos: int, d: Seq<char>) -> Option<Seq<char>>
    decreases d.len(),
{
    if d.len() < 2 {
        Some(w)
    } else {
        match edit_step(w, pos, d[0], d[1]) {
            Some((w2, p2)) => edit_pairs(w2, p2 - 1, d.subrange(2, d.len() as int)),
            None => None,
        }
    }
}

/// The stem that command string `d` makes of `orig`: the cursor starts at
/// the last character; an empty word or an empty result gives `None`.
pub open spec fn apply_spec(orig: Seq<char>, d: Seq<char>) -> Option<Seq<char>> {
    if orig.len() == 0 {
        None
    } else {
        match edit_pairs(orig, orig.len() - 1, d) {
            Some(r) => if r.len() == 0 {
                None
            } else {
                Some(r)
            },
            None => None,
        }
    }
}

/// The index of the word that the pair `(op, arg)` reads, writes or inserts
/// at with the cursor at `pos` lies inside the word.
pub open spec fn pair_in_word(w: Seq<char>, pos: int, op: char, arg: char) -> bool {
    if op == 'R' {
        0 <= pos < w.len()
    } else if op == 'D' {
        0 <= pos - arg_value(arg) && pos < w.len()
    } else if op == 'I' {
        0 <= pos + 1 <= w.len()
    } else {
        true
    }
}

/// Cursor safety: a valid pair whose cursor would leave the word makes the
/// whole command string give no stem, whatever follows it; a pair that
/// stays inside the word only ever touches positions of the word.
pub proof fn lemma_cursor_safety(w: Seq<char>, pos: int, op: char, arg: char, rest: Seq<char>)
    requires
        valid_pair(op, arg),
    ensures
        !pair_in_word(w, pos, op, arg) ==> edit_pairs(w, pos, seq![op, arg] + rest) is None,
        pair_in_word(w, pos, op, arg) ==> edit_step(w, pos, op, arg) is Some,
{
    let d = seq![op, arg] + rest;
    assert(d[0] == op && d[1] == arg);
    assert(d.subrange(2, d.len() as int) =~= rest);
}

/// Below -1 the cursor can never again reach the word, so where exactly it
/// stands there makes no difference.
proof fn lemma_low_cursor(w: Seq<char>, p: int, q: int, d: Seq<char>)
    requires
        p <= -2,
        q <= -2,
    ensures
        edit_pairs(w, p, d) == edit_pairs(w, q, d),
    decreases d.len(),
{
    if d.len() >= 2 {
        let rest = d.subrange(2, d.len() as int);
        if d[0] == '-' && is_lower(d[1]) {
            lemma_low_cursor(w, p - 2 - arg_value(d[1]), q - 2 - arg_value(d[1]), rest);
        }
    }
}

/// Applies command string `diff` to `orig`. Returns `None` for an empty
/// word, an empty result, a pair that is not a command, or a cursor that
/// would reach outside the word.
pub fn apply(orig: &str, diff: &str) -> (r: Option<String>)
    ensures
        r matches Some(s) ==> apply_spec(orig@, diff@) == Some(s@),
        r is None ==> apply_spec(orig@, diff@) is None,
{
    let word = chars_of(orig);
    let d = chars_of(diff);
    match apply_chars(&word, &d) {
        Some(v) => Some(string_of(v.as_slice())),
        None => None,
    }
}

/// `apply` on character vectors.
pub fn apply_chars(orig: &Vec<char>, d: &Vec<char>) -> (r: Option<Vec<char>>)
    ensures
        r matches Some(v) ==> apply_spec(orig@, d@) == Some(v@),
        r is None ==> apply_spec(orig@, d@) is None,
{
    if orig.len() == 0 {
        return None;
    }
    let mut result = orig.clone();
    let mut pos: i128 = (orig.len() - 1) as i128;
    let mut i: usize = 0;
    let ghost target = edit_pairs(orig@, orig@.len() - 1, d@);
    assert(d@.subrange(0, d@.len() as int) == d@);
    while d.len() - i >= 2
        invariant
            i <= d@.len(),
            -2 <= pos <= result@.len(),
            target == edit_pairs(orig@, orig@.len() - 1, d@),
            edit_pairs(result@, pos as int, d@.subrange(i as int, d@.len() as int)) == target,
        decreases d@.len() - i,
    {
        let op = d[i];
        let arg = d[i + 1];
        let ghost rest = d@.subrange(i + 2, d@.len() as int);
        assert(d@.subrange(i as int, d@.len() as int).subrange(2, d@.len() - i) == rest);
        let ghost w0 = result@;
        let ghost p0 = pos as int;
        if op == '-' {
            if !('a' <= arg && arg <= 'z') {
                return None;
            }
            pos = pos - 1 - ((arg as u32 - 'a' as u32) as i128);
        } else if op == 'R' {
            if pos < 0 || pos >= result.len() as i128 {
                return None;
            }
            result.set(pos as usize, arg);
        } else if op == 'D' {
            if !('a' <= arg && arg <= 'z') {
                return None;
            }
            let span = (arg as u32 - 'a' as u32) as i128;
            if pos - span < 0 || pos >= result.len() as i128 {
                return None;
            }
            let start = (pos - span) as usize;
            let end = pos as usize;
            let mut k: usize = start;
            while k < end
                invariant
                    start <= k <= end,
                    end < w0.len(),
                    result@ == w0.subrange(0, start as int) + w0.subrange(k as int, w0.len() as int),
                decreases end - k,
            {
                result.remove(start);
                k = k + 1;
                assert(result@ == w0.subrange(0, start as int) + w0.subrange(
                    k as int,
                    w0.len() as int,
                ));
            }
            result.remove(start);
            assert(result@ == w0.subrange(0, start as int) + w0.subrange(end + 1, w0.len() as int));
            pos = pos - span;
        } else if op == 'I' {
            if pos < -1 || pos >= result.len() as i128 {
                return None;
            }
            pos = pos + 1;
            result.insert(pos as usize, arg);
        } else {
            return None;
        }
        assert(edit_step(w0, p0, op, arg) == Some((result@, pos as int)));
        pos = pos - 1;
        if pos < -2 {
            proof {
                lemma_low_cursor(result@, pos as int, -2, rest);
            }
            pos = -2;
        }
        i = i + 2;
    }
    assert(d@.subrange(i as int, d@.len() as int).len() < 2);
    if result.len() == 0 {
        None
    } else {
        Some(result)
    }
}

/// Whether a command whose last pair has op `after` may not be followed, in
/// the next trie, by a command whose first op is `goes`: a skip after a skip
/// or a deletion after a deletion would count characters twice.
pub fn cannot_follow(after: char, goes: char) -> (r: bool)
    ensures
        r == ((after == '-' || after == 'D') && after == goes),
{
    (after == '-' || after == 'D') && after == goes
}

/// The number of source characters command string `cmd` accounts for.
pub fn length_pp(cmd: &Vec<char>) -> (r: usize)
    requires
        pairs_valid(cmd@),
        cmd@.len() <= MAX_CMD_LEN,
    ensures
        r == length_pp_spec(cmd@),
{
    let mut len: usize = 0;
    let mut i: usize = 0;
    assert(cmd@.subrange(0, cmd@.len() as int) == cmd@);
    while cmd.len() - i >= 2
        invariant
            i <= cmd@.len() <= MAX_CMD_LEN,
            len <= 27 * i,
            pairs_valid(cmd@.subrange(i as int, cmd@.len() as int)),
            length_pp_spec(cmd@) == len + length_pp_spec(cmd@.subrange(i as int, cmd@.len() as int)),
        decreases cmd@.len() - i,
    {
        let op = cmd[i];
        let arg = cmd[i + 1];
        assert(cmd@.subrange(i as int, cmd@.len() as int).subrange(2, cmd@.len() - i)
            == cmd@.subrange(i + 2, cmd@.len() as int));
        if op == '-' || op == 'D' {
            len = len + 1 + (arg as u32 - 'a' as u32) as usize;
        } else if op == 'R' {
            len = len + 1;
        }
        i = i + 2;
    }
    len
}

/// `length_pp` of a string.
pub fn length_pp_str(cmd: &str) -> (r: usize)
    requires
        pairs_valid(cmd@),
        cmd@.len() <= MAX_CMD_LEN,
    ensures
        r == length_pp_spec(cmd@),
{
    let c = chars_of(cmd);
    length_pp(&c)
}

} // verus!
