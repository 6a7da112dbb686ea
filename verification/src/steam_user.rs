//! Reading the signed-in Steam account out of the text of `loginusers.vdf`.

use crate::text::{
    chars_of, find_char_from, line_views, lines, parse_bounded, parse_unsigned, position,
    same_chars, slice_of, split_lines, string_of, trim, trimmed,
};
use vstd::prelude::*;

verus! {

/// The 64-bit id of the account numbered zero.
pub const STEAM_ID_64_IDENT: u64 = 76561197960265728;

/// One account of the file.
#[derive(Debug, Clone, Copy, PartialEq, Eq, Structural)]
pub struct ParsedUser {
    pub steam_id: u64,
    pub most_recent: bool,
}

/// What stands between the double quotes that begin and end `s` once it
/// is trimmed.
pub open spec fn quoted(s: Seq<char>) -> Option<Seq<char>> {
    let t = trim(s);
    if t.len() >= 2 && t[0] == '"' && t.last() == '"' {
        Some(t.subrange(1, t.len() - 1))
    } else {
        None
    }
}

/// The texts that stand between the first and second double quote of
/// `s`, between the third and fourth, and so on.
pub open spec fn all_quoted(s: Seq<char>) -> Seq<Seq<char>>
    decreases s.len(),
{
    let a = position(s, '"');
    if a < 0 || a >= s.len() {
        Seq::empty()
    } else {
        let t = s.skip(a + 1);
        let b = position(t, '"');
        if b < 0 || b >= t.len() {
            Seq::empty()
        } else {
            seq![t.take(b)] + all_quoted(t.skip(b + 1))
        }
    }
}

/// Whether `line` holds nothing but the brace `brace`.
pub open spec fn is_brace(line: Seq<char>, brace: char) -> bool {
    trim(line) == seq![brace]
}

/// Index of the first line at or after `start` that closes a block, or
/// the number of lines.
pub open spec fn block_end(ls: Seq<Seq<char>>, start: int) -> int
    decreases ls.len() - start,
{
    if start < 0 || start >= ls.len() {
        ls.len() as int
    } else if is_brace(ls[start], '}') {
        start
    } else {
        block_end(ls, start + 1)
    }
}

/// Index of the line that follows the block which begins at `start`.
pub open spec fn block_next(ls: Seq<Seq<char>>, start: int) -> int {
    if block_end(ls, start) < ls.len() {
        block_end(ls, start) + 1
    } else {
        ls.len() as int
    }
}

/// The key and value of each line from `start` up to `end` that holds at
/// least two quoted texts, in order.
pub open spec fn block_pairs(ls: Seq<Seq<char>>, start: int, end: int) -> Seq<
    (Seq<char>, Seq<char>),
>
    decreases end - start,
{
    if start < 0 || start >= end || end > ls.len() {
        Seq::empty()
    } else {
        let q = all_quoted(trim(ls[end - 1]));
        let before = block_pairs(ls, start, end - 1);
        if q.len() >= 2 {
            before.push((q[0], q[1]))
        } else {
            before
        }
    }
}

/// The value that `pairs` gives `key`: that of the last pair under it.
pub open spec fn last_value(pairs: Seq<(Seq<char>, Seq<char>)>, key: Seq<char>) -> Option<
    Seq<char>,
>
    decreases pairs.len(),
{
    if pairs.len() == 0 {
        None
    } else if pairs.last().0 == key {
        Some(pairs.last().1)
    } else {
        last_value(pairs.drop_last(), key)
    }
}

/// The account id that `line` announces: a quoted unsigned number.
pub open spec fn steam_id_of(line: Seq<char>) -> Option<u64> {
    match quoted(trim(line)) {
        Some(q) => match parse_unsigned(q, u64::MAX as nat) {
            Some(v) => Some(v as u64),
            None => None,
        },
        None => None,
    }
}

/// The accounts written from line `i` on, inside the top-level block: a
/// quoted id on a line of its own, an opening brace on the next, then
/// the account's properties up to the closing brace. The list ends at
/// the brace that closes the top-level block.
pub open spec fn users_from(ls: Seq<Seq<char>>, i: int) -> Seq<ParsedUser>
    decreases ls.len() - i,
{
    if i < 0 || i >= ls.len() {
        Seq::empty()
    } else if is_brace(ls[i], '}') {
        Seq::empty()
    } else {
        let next = block_next(ls, i + 2);
        if steam_id_of(ls[i]) is Some && i + 1 < ls.len() && is_brace(ls[i + 1], '{') && i < next
            <= ls.len() {
            let props = block_pairs(ls, i + 2, block_end(ls, i + 2));
            seq![
                ParsedUser {
                    steam_id: steam_id_of(ls[i])->0,
                    most_recent: last_value(props, "MostRecent"@) == Some("1"@),
                },
            ] + users_from(ls, next)
        } else {
            users_from(ls, i + 1)
        }
    }
}

/// Index of the first line at or after `i` that opens a block, or the
/// number of lines.
pub open spec fn first_open(ls: Seq<Seq<char>>, i: int) -> int
    decreases ls.len() - i,
{
    if i < 0 || i >= ls.len() {
        ls.len() as int
    } else if is_brace(ls[i], '{') {
        i
    } else {
        first_open(ls, i + 1)
    }
}

/// The accounts that the file text `content` lists.
pub open spec fn login_users(content: Seq<char>) -> Seq<ParsedUser> {
    let ls = lines(content);
    users_from(ls, first_open(ls, 0) + 1)
}

/// The id of the first account marked as most recent.
pub open spec fn first_recent(users: Seq<ParsedUser>) -> Option<u64>
    decreases users.len(),
{
    if users.len() == 0 {
        None
    } else if users[0].most_recent {
        Some(users[0].steam_id)
    } else {
        first_recent(users.drop_first())
    }
}

/// The 32-bit account id of the 64-bit id `id64`, where it has one.
pub open spec fn account_id(id64: u64) -> Option<u32> {
    if STEAM_ID_64_IDENT <= id64 && id64 - STEAM_ID_64_IDENT <= u32::MAX {
        Some((id64 - STEAM_ID_64_IDENT) as u32)
    } else {
        None
    }
}

/// The views of the texts held in `v`.
pub open spec fn text_views(v: Seq<String>) -> Seq<Seq<char>> {
    Seq::new(v.len(), |i: int| v[i]@)
}

/// The views of the pairs held in `v`.
pub open spec fn pair_views(v: Seq<(Vec<char>, Vec<char>)>) -> Seq<(Seq<char>, Seq<char>)> {
    Seq::new(v.len(), |i: int| (v[i].0@, v[i].1@))
}

pub proof fn lemma_block_end(ls: Seq<Seq<char>>, start: int)
    requires
        0 <= start,
    ensures
        start <= block_end(ls, start) || block_end(ls, start) == ls.len(),
        block_end(ls, start) <= ls.len(),
        start <= ls.len() ==> start <= block_end(ls, start),
        block_end(ls, start) < ls.len() ==> is_brace(ls[block_end(ls, start)], '}'),
    decreases ls.len() - start,
{
    if start < ls.len() && !is_brace(ls[start], '}') {
        lemma_block_end(ls, start + 1);
    }
}

/// What stands between the quotes of `s`.
fn quoted_chars(s: &Vec<char>) -> (r: Option<Vec<char>>)
    ensures
        match r {
            Some(q) => quoted(s@) == Some(q@),
            None => quoted(s@) is None,
        },
{
    let t = trimmed(s);
    if t.len() >= 2 && t[0] == '"' && t[t.len() - 1] == '"' {
        Some(slice_of(&t, 1, t.len() - 1))
    } else {
        None
    }
}

/// The quoted texts of `s`.
fn all_quoted_chars(s: &Vec<char>) -> (out: Vec<Vec<char>>)
    ensures
        line_views(out@) == all_quoted(s@),
{
    let mut out: Vec<Vec<char>> = Vec::new();
    let mut i: usize = 0;
    assert(s@.skip(0) =~= s@);
    assert(line_views(out@) + all_quoted(s@) =~= all_quoted(s@));
    loop
        invariant
            i <= s.len(),
            all_quoted(s@) == line_views(out@) + all_quoted(s@.skip(i as int)),
        ensures
            line_views(out@) == all_quoted(s@),
        decreases s.len() - i,
    {
        let ghost rest = s@.skip(i as int);
        let a = find_char_from(s, i, '"');
        if a >= s.len() {
            assert(line_views(out@) + all_quoted(rest) =~= line_views(out@));
            break;
        }
        let ghost t = rest.skip(a - i + 1);
        assert(t =~= s@.skip(a + 1));
        let b = find_char_from(s, a + 1, '"');
        if b >= s.len() {
            assert(line_views(out@) + all_quoted(rest) =~= line_views(out@));
            break;
        }
        let piece = slice_of(s, a + 1, b);
        assert(piece@ =~= t.take(b - (a + 1)));
        assert(t.skip(b - (a + 1) + 1) =~= s@.skip(b + 1));
        let ghost before = line_views(out@);
        out.push(piece);
        assert(line_views(out@) =~= before + seq![piece@]);
        assert(before + (seq![piece@] + all_quoted(s@.skip(b + 1))) =~= (before + seq![piece@])
            + all_quoted(s@.skip(b + 1)));
        i = b + 1;
    }
    out
}

/// What stands between the double quotes that begin and end `s` once it
/// is trimmed, if it is so quoted.
pub fn extract_quoted(s: &str) -> (r: Option<String>)
    ensures
        match r {
            Some(q) => quoted(s@) == Some(q@),
            None => quoted(s@) is None,
        },
{
    match quoted_chars(&chars_of(s)) {
        Some(q) => Some(string_of(&q)),
        None => None,
    }
}

/// The texts between the first and second double quote of `s`, between
/// the third and fourth, and so on.
pub fn extract_all_quoted(s: &str) -> (out: Vec<String>)
    ensures
        text_views(out@) == all_quoted(s@),
{
    let pieces = all_quoted_chars(&chars_of(s));
    let mut out: Vec<String> = Vec::new();
    let mut i: usize = 0;
    while i < pieces.len()
        invariant
            i <= pieces.len(),
            out@.len() == i,
            forall|j: int| 0 <= j < i ==> (#[trigger] out@[j])@ == pieces@[j]@,
        decreases pieces.len() - i,
    {
        out.push(string_of(&pieces[i]));
        i += 1;
    }
    assert(text_views(out@) =~= line_views(pieces@));
    out
}

/// Whether `line` holds nothing but `brace`.
fn line_is_brace(line: &Vec<char>, brace: char) -> (r: bool)
    ensures
        r == is_brace(line@, brace),
{
    let t = trimmed(line);
    let r = t.len() == 1 && t[0] == brace;
    proof {
        if r {
            assert(t@ =~= seq![brace]);
        } else if t@.len() == 1 {
            assert(seq![brace][0] == brace);
        }
    }
    r
}

/// Reads the properties of the block that begins at line `start`: the
/// pairs of its lines up to the closing brace, and the index of the line
/// that follows the block.
pub fn parse_block(lines: &Vec<Vec<char>>, start: usize) -> (out: (
    Vec<(Vec<char>, Vec<char>)>,
    usize,
))
    requires
        start <= lines.len(),
    ensures
        pair_views(out.0@) == block_pairs(
            line_views(lines@),
            start as int,
            block_end(line_views(lines@), start as int),
        ),
        out.1 == block_next(line_views(lines@), start as int),
{
    let ghost ls = line_views(lines@);
    let mut pairs: Vec<(Vec<char>, Vec<char>)> = Vec::new();
    let mut i: usize = start;
    assert(pair_views(pairs@) =~= block_pairs(ls, start as int, start as int));
    while i < lines.len()
        invariant
            start <= i <= lines.len(),
            ls == line_views(lines@),
            block_end(ls, start as int) == block_end(ls, i as int),
            pair_views(pairs@) == block_pairs(ls, start as int, i as int),
        decreases lines.len() - i,
    {
        assert(ls[i as int] == lines@[i as int]@);
        if line_is_brace(&lines[i], '}') {
            return (pairs, i + 1);
        }
        let q = all_quoted_chars(&trimmed(&lines[i]));
        let ghost before = pair_views(pairs@);
        if q.len() >= 2 {
            assert(line_views(q@)[0] == q@[0]@);
            assert(line_views(q@)[1] == q@[1]@);
            let key = slice_of(&q[0], 0, q[0].len());
            let value = slice_of(&q[1], 0, q[1].len());
            assert(key@ =~= q@[0]@);
            assert(value@ =~= q@[1]@);
            pairs.push((key, value));
            assert(pair_views(pairs@) =~= before.push((q@[0]@, q@[1]@)));
        }
        i += 1;
    }
    (pairs, i)
}

/// Whether the last pair of `pairs` under `key` holds `value`.
fn last_value_is(pairs: &Vec<(Vec<char>, Vec<char>)>, key: &Vec<char>, value: &Vec<char>) -> (r:
    bool)
    ensures
        r == (last_value(pair_views(pairs@), key@) == Some(value@)),
{
    let mut i: usize = pairs.len();
    let ghost all = pair_views(pairs@);
    assert(all.take(i as int) =~= all);
    while i > 0
        invariant
            i <= pairs.len(),
            all == pair_views(pairs@),
            last_value(all, key@) == last_value(all.take(i as int), key@),
        decreases i,
    {
        i -= 1;
        assert(all.take(i + 1).last() == all[i as int]);
        assert(all.take(i + 1).drop_last() =~= all.take(i as int));
        if same_chars(&pairs[i].0, key) {
            return same_chars(&pairs[i].1, value);
        }
    }
    false
}

/// The accounts that the text of `loginusers.vdf` lists.
pub fn parse_login_users(content: &str) -> (users: Vec<ParsedUser>)
    ensures
        users@ == login_users(content@),
{
    let lines = split_lines(&chars_of(content));
    let ghost ls = line_views(lines@);
    let mut users: Vec<ParsedUser> = Vec::new();
    let mut i: usize = 0;
    while i < lines.len() && !line_is_brace(&lines[i], '{')
        invariant
            i <= lines.len(),
            ls == line_views(lines@),
            first_open(ls, 0) == first_open(ls, i as int),
        decreases lines.len() - i,
    {
        assert(ls[i as int] == lines@[i as int]@);
        i += 1;
    }
    proof {
        if i < lines.len() {
            assert(ls[i as int] == lines@[i as int]@);
        }
    }
    if i >= lines.len() {
        return users;
    }
    i += 1;
    let recent = chars_of("MostRecent");
    let one = chars_of("1");
    assert(users@ + users_from(ls, i as int) =~= users_from(ls, i as int));
    while i < lines.len()
        invariant
            i <= lines.len(),
            ls == line_views(lines@),
            recent@ == "MostRecent"@,
            one@ == "1"@,
            login_users(content@) == users@ + users_from(ls, i as int),
        decreases lines.len() - i,
    {
        assert(ls[i as int] == lines@[i as int]@);
        if line_is_brace(&lines[i], '}') {
            assert(users@ + users_from(ls, i as int) =~= users@);
            return users;
        }
        let id = match quoted_chars(&trimmed(&lines[i])) {
            Some(q) => parse_bounded(&q, 0xFFFF_FFFF_FFFF_FFFF),
            None => None,
        };
        let mut next: usize = i + 1;
        match id {
            Some(steam_id) => {
                proof {
                    if i + 1 < lines.len() {
                        assert(ls[i + 1] == lines@[i + 1]@);
                    }
                }
                if i + 1 < lines.len() && line_is_brace(&lines[i + 1], '{') {
                    let (props, after) = parse_block(&lines, i + 2);
                    proof {
                        lemma_block_end(ls, i + 2);
                    }
                    let user = ParsedUser {
                        steam_id,
                        most_recent: last_value_is(&props, &recent, &one),
                    };
                    let ghost before = users@;
                    users.push(user);
                    assert(before + (seq![user] + users_from(ls, after as int)) =~= before.push(
                        user,
                    ) + users_from(ls, after as int));
                    next = after;
                }
            },
            None => {},
        }
        i = next;
    }
    assert(users@ + users_from(ls, i as int) =~= users@);
    users
}

/// The 32-bit account id of the 64-bit id `id64`, where it has one.
pub fn steam_id3(id64: u64) -> (r: Option<u32>)
    ensures
        r == account_id(id64),
{
    if id64 >= STEAM_ID_64_IDENT && id64 - STEAM_ID_64_IDENT <= 0xFFFF_FFFF {
        Some((id64 - STEAM_ID_64_IDENT) as u32)
    } else {
        None
    }
}

/// The 32-bit id of the account that the text of `loginusers.vdf` marks
/// as most recent.
pub fn current_steam_id3(content: &str) -> (r: Option<u32>)
    ensures
        r == match first_recent(login_users(content@)) {
            Some(id64) => account_id(id64),
            None => None,
        },
{
    let users = parse_login_users(content);
    let mut i: usize = 0;
    assert(users@.skip(0) =~= users@);
    while i < users.len()
        invariant
            i <= users.len(),
            users@ == login_users(content@),
            first_recent(users@) == first_recent(users@.skip(i as int)),
        decreases users.len() - i,
    {
        assert(users@.skip(i as int)[0] == users@[i as int]);
        assert(users@.skip(i as int).drop_first() =~= users@.skip(i + 1));
        if users[i].most_recent {
            return steam_id3(users[i].steam_id);
        }
        i += 1;
    }
    None
}

} // verus!
