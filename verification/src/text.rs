//! Character-level text helpers shared by the parsers.
//!
//! Text is modelled as `Seq<char>`; the executable helpers work on
//! `Vec<char>` and are specified by the spec functions of the same module.

use vstd::prelude::*;

verus! {

/// Whether `c` has the Unicode `White_Space` property.
pub open spec fn is_whitespace(c: char) -> bool {
    let u = c as u32;
    ||| 0x09 <= u <= 0x0D
    ||| u == 0x20
    ||| u == 0x85
    ||| u == 0xA0
    ||| u == 0x1680
    ||| 0x2000 <= u <= 0x200A
    ||| u == 0x2028
    ||| u == 0x2029
    ||| u == 0x202F
    ||| u == 0x205F
    ||| u == 0x3000
}

/// Index of the first element of `s` equal to `x`, or `s.len()` when there is none.
pub open spec fn position<T>(s: Seq<T>, x: T) -> int
    decreases s.len(),
{
    if s.len() == 0 {
        0
    } else if s[0] == x {
        0
    } else {
        1 + position(s.drop_first(), x)
    }
}

/// Index of the last element of `s` equal to `x`, or `-1` when there is none.
pub open spec fn last_position<T>(s: Seq<T>, x: T) -> int
    decreases s.len(),
{
    if s.len() == 0 {
        -1
    } else if s.last() == x {
        s.len() - 1
    } else {
        last_position(s.drop_last(), x)
    }
}

/// Whether `n` occurs in `h` starting at index `i`.
pub open spec fn occurs_at<T>(h: Seq<T>, n: Seq<T>, i: int) -> bool {
    0 <= i && i + n.len() <= h.len() && h.subrange(i, i + n.len()) == n
}

/// Index of the first occurrence of `n` in `h` at or after `k`, if any.
pub open spec fn search_from<T>(h: Seq<T>, n: Seq<T>, k: int) -> Option<int>
    decreases h.len() + 1 - k,
{
    if k < 0 || k + n.len() > h.len() {
        None
    } else if occurs_at(h, n, k) {
        Some(k)
    } else {
        search_from(h, n, k + 1)
    }
}

/// Index of the first occurrence of `n` in `h`, if any.
pub open spec fn search<T>(h: Seq<T>, n: Seq<T>) -> Option<int> {
    search_from(h, n, 0)
}

/// Whether `n` occurs somewhere in `h`.
pub open spec fn contains_seq<T>(h: Seq<T>, n: Seq<T>) -> bool {
    search(h, n) is Some
}

/// Whether `s` begins with `p`.
pub open spec fn starts_with<T>(s: Seq<T>, p: Seq<T>) -> bool {
    p.len() <= s.len() && s.take(p.len() as int) == p
}

/// Whether `s` ends with `p`.
pub open spec fn ends_with<T>(s: Seq<T>, p: Seq<T>) -> bool {
    p.len() <= s.len() && s.skip(s.len() - p.len()) == p
}

/// `s` without its leading whitespace.
pub open spec fn trim_start(s: Seq<char>) -> Seq<char>
    decreases s.len(),
{
    if s.len() > 0 && is_whitespace(s[0]) {
        trim_start(s.drop_first())
    } else {
        s
    }
}

/// `s` without its trailing whitespace.
pub open spec fn trim_end(s: Seq<char>) -> Seq<char>
    decreases s.len(),
{
    if s.len() > 0 && is_whitespace(s.last()) {
        trim_end(s.drop_last())
    } else {
        s
    }
}

/// `s` without leading and trailing whitespace.
pub open spec fn trim(s: Seq<char>) -> Seq<char> {
    trim_end(trim_start(s))
}

/// `s` without its leading run of `c`.
pub open spec fn strip_leading(s: Seq<char>, c: char) -> Seq<char>
    decreases s.len(),
{
    if s.len() > 0 && s[0] == c {
        strip_leading(s.drop_first(), c)
    } else {
        s
    }
}

/// Length of the leading run of non-whitespace characters of `s`.
pub open spec fn token_len(s: Seq<char>) -> int
    decreases s.len(),
{
    if s.len() == 0 || is_whitespace(s[0]) {
        0
    } else {
        1 + token_len(s.drop_first())
    }
}

/// The first whitespace-delimited token of `s`; empty when `s` holds none.
pub open spec fn first_token(s: Seq<char>) -> Seq<char> {
    let t = trim_start(s);
    t.take(token_len(t))
}

/// What follows the first whitespace-delimited token of `s`.
pub open spec fn after_first_token(s: Seq<char>) -> Seq<char> {
    let t = trim_start(s);
    t.skip(token_len(t))
}

/// `line` without one trailing carriage return.
pub open spec fn strip_cr(line: Seq<char>) -> Seq<char> {
    if line.len() > 0 && line.last() == '\r' {
        line.drop_last()
    } else {
        line
    }
}

/// The lines of `s`: split after each line feed, the line feed and one
/// carriage return before it removed. A last line without a line feed is
/// kept as it is; an empty remainder is no line.
pub open spec fn lines(s: Seq<char>) -> Seq<Seq<char>>
    decreases s.len(),
{
    if s.len() == 0 {
        Seq::empty()
    } else {
        let i = position(s, '\n');
        if i >= s.len() {
            seq![s]
        } else if i < 0 {
            Seq::empty()
        } else {
            seq![strip_cr(s.take(i))] + lines(s.skip(i + 1))
        }
    }
}

/// The code of `c` with ASCII upper-case letters mapped to lower case.
pub open spec fn lower_code(c: char) -> u32 {
    let u = c as u32;
    if 65 <= u <= 90 {
        (u + 32) as u32
    } else {
        u
    }
}

/// Whether `a` and `b` are equal up to the case of ASCII letters.
pub open spec fn eq_ignore_ascii_case(a: Seq<char>, b: Seq<char>) -> bool {
    a.len() == b.len() && forall|i: int|
        0 <= i < a.len() ==> lower_code(#[trigger] a[i]) == lower_code(b[i])
}

pub proof fn lemma_position<T>(s: Seq<T>, x: T)
    ensures
        0 <= position(s, x) <= s.len(),
        forall|j: int| 0 <= j < position(s, x) ==> s[j] != x,
        position(s, x) < s.len() ==> s[position(s, x)] == x,
    decreases s.len(),
{
    if s.len() > 0 && s[0] != x {
        let t = s.drop_first();
        lemma_position(t, x);
        assert forall|j: int| 0 <= j < position(s, x) implies s[j] != x by {
            if j > 0 {
                assert(s[j] == t[j - 1]);
            }
        }
    }
}

/// `position` is the only index with no `x` before it that holds `x` or is the end.
pub proof fn lemma_position_unique<T>(s: Seq<T>, x: T, i: int)
    requires
        0 <= i <= s.len(),
        forall|j: int| 0 <= j < i ==> s[j] != x,
        i < s.len() ==> s[i] == x,
    ensures
        position(s, x) == i,
{
    lemma_position(s, x);
}

pub proof fn lemma_last_position<T>(s: Seq<T>, x: T)
    ensures
        -1 <= last_position(s, x) < s.len(),
        forall|j: int| last_position(s, x) < j < s.len() ==> s[j] != x,
        last_position(s, x) >= 0 ==> s[last_position(s, x)] == x,
    decreases s.len(),
{
    if s.len() > 0 && s.last() != x {
        let t = s.drop_last();
        lemma_last_position(t, x);
        assert forall|j: int| last_position(s, x) < j < s.len() implies s[j] != x by {
            if j < s.len() - 1 {
                assert(s[j] == t[j]);
            }
        }
    }
}

pub proof fn lemma_last_position_unique<T>(s: Seq<T>, x: T, i: int)
    requires
        -1 <= i < s.len(),
        forall|j: int| i < j < s.len() ==> s[j] != x,
        i >= 0 ==> s[i] == x,
    ensures
        last_position(s, x) == i,
{
    lemma_last_position(s, x);
}

pub proof fn lemma_search_found<T>(h: Seq<T>, n: Seq<T>, k: int, i: int)
    requires
        0 <= k <= i,
        occurs_at(h, n, i),
        forall|j: int| k <= j < i ==> !occurs_at(h, n, j),
    ensures
        search_from(h, n, k) == Some(i),
    decreases i - k,
{
    if k < i {
        lemma_search_found(h, n, k + 1, i);
    }
}

pub proof fn lemma_search_absent<T>(h: Seq<T>, n: Seq<T>, k: int)
    requires
        forall|j: int| k <= j ==> !occurs_at(h, n, j),
    ensures
        search_from(h, n, k) is None,
    decreases h.len() + 1 - k,
{
    if !(k < 0 || k + n.len() > h.len()) {
        lemma_search_absent(h, n, k + 1);
    }
}

/// What `search_from` returns is the first occurrence at or after `k`.
pub proof fn lemma_search_from<T>(h: Seq<T>, n: Seq<T>, k: int)
    requires
        0 <= k,
    ensures
        match search_from(h, n, k) {
            Some(i) => k <= i && occurs_at(h, n, i) && forall|j: int|
                k <= j < i ==> !occurs_at(h, n, j),
            None => forall|j: int| k <= j ==> !occurs_at(h, n, j),
        },
    decreases h.len() + 1 - k,
{
    if !(k + n.len() > h.len()) && !occurs_at(h, n, k) {
        lemma_search_from(h, n, k + 1);
    }
}

/// Whether `c` has the Unicode `White_Space` property.
pub fn char_is_whitespace(c: char) -> (r: bool)
    ensures
        r == is_whitespace(c),
{
    let u: u32 = c as u32;
    (0x09 <= u && u <= 0x0D) || u == 0x20 || u == 0x85 || u == 0xA0 || u == 0x1680 || (0x2000 <= u
        && u <= 0x200A) || u == 0x2028 || u == 0x2029 || u == 0x202F || u == 0x205F || u == 0x3000
}

/// The characters of `s`, in order.
pub fn chars_of(s: &str) -> (out: Vec<char>)
    ensures
        out@ == s@,
{
    let mut out: Vec<char> = Vec::new();
    for c in it: s.chars()
        invariant
            out@ == it.seq().take(it.index()),
            it.seq() == s@,
    {
        out.push(c);
    }
    out
}

/// `String::push`: appends one character to the end of the string.
#[verifier::external_body]
fn push_char(s: &mut String, c: char)
    ensures
        final(s)@ == old(s)@.push(c),
{
    s.push(c)
}

/// The string made of the characters of `chars`, in order.
pub fn string_of(chars: &Vec<char>) -> (out: String)
    ensures
        out@ == chars@,
{
    let mut out = String::new();
    let mut i: usize = 0;
    while i < chars.len()
        invariant
            i <= chars.len(),
            out@ == chars@.take(i as int),
        decreases chars.len() - i,
    {
        push_char(&mut out, chars[i]);
        i += 1;
    }
    out
}

/// A copy of the elements of `s` from `lo` up to `hi`.
pub fn slice_of(s: &Vec<char>, lo: usize, hi: usize) -> (out: Vec<char>)
    requires
        lo <= hi <= s.len(),
    ensures
        out@ == s@.subrange(lo as int, hi as int),
{
    let mut out: Vec<char> = Vec::new();
    let mut i: usize = lo;
    while i < hi
        invariant
            lo <= i <= hi <= s.len(),
            out@ == s@.subrange(lo as int, i as int),
        decreases hi - i,
    {
        out.push(s[i]);
        i += 1;
    }
    out
}

/// Appends the elements of `tail` to `out`.
pub fn append_chars(out: &mut Vec<char>, tail: &Vec<char>)
    ensures
        final(out)@ == old(out)@ + tail@,
{
    let mut i: usize = 0;
    while i < tail.len()
        invariant
            i <= tail.len(),
            out@ == old(out)@ + tail@.take(i as int),
        decreases tail.len() - i,
    {
        out.push(tail[i]);
        i += 1;
    }
}

/// Index of the first `c` in `s`, or `s.len()` when there is none.
pub fn find_char(s: &Vec<char>, c: char) -> (r: usize)
    ensures
        r <= s.len(),
        r as int == position(s@, c),
{
    let mut i: usize = 0;
    while i < s.len() && s[i] != c
        invariant
            i <= s.len(),
            forall|j: int| 0 <= j < i ==> s@[j] != c,
        decreases s.len() - i,
    {
        i += 1;
    }
    proof {
        lemma_position_unique(s@, c, i as int);
    }
    i
}

/// Index of the first `c` in `s` at or after `from`, or `s.len()` when
/// there is none.
pub fn find_char_from(s: &Vec<char>, from: usize, c: char) -> (r: usize)
    requires
        from <= s.len(),
    ensures
        from <= r <= s.len(),
        r - from == position(s@.skip(from as int), c),
{
    let mut i: usize = from;
    let ghost rest = s@.skip(from as int);
    while i < s.len() && s[i] != c
        invariant
            from <= i <= s.len(),
            rest == s@.skip(from as int),
            forall|j: int| 0 <= j < i - from ==> rest[j] != c,
        decreases s.len() - i,
    {
        i += 1;
    }
    proof {
        lemma_position_unique(rest, c, i - from);
    }
    i
}

/// Whether `a` and `b` hold the same characters.
pub fn same_chars(a: &Vec<char>, b: &Vec<char>) -> (r: bool)
    ensures
        r == (a@ == b@),
{
    if a.len() != b.len() {
        return false;
    }
    let mut i: usize = 0;
    while i < a.len()
        invariant
            i <= a.len(),
            a.len() == b.len(),
            forall|j: int| 0 <= j < i ==> a@[j] == b@[j],
        decreases a.len() - i,
    {
        if a[i] != b[i] {
            return false;
        }
        i += 1;
    }
    assert(a@ =~= b@);
    true
}

/// Index of the last `c` in `s`, if any.
pub fn rfind_char(s: &Vec<char>, c: char) -> (r: Option<usize>)
    ensures
        match r {
            Some(i) => i < s.len() && i as int == last_position(s@, c),
            None => last_position(s@, c) == -1,
        },
{
    let mut i: usize = s.len();
    while i > 0 && s[i - 1] != c
        invariant
            i <= s.len(),
            forall|j: int| i <= j < s.len() ==> s@[j] != c,
        decreases i,
    {
        i -= 1;
    }
    proof {
        lemma_last_position_unique(s@, c, i as int - 1);
    }
    if i == 0 {
        None
    } else {
        Some(i - 1)
    }
}

/// Whether `n` occurs in `h` at index `i`.
pub fn matches_at(h: &Vec<char>, n: &Vec<char>, i: usize) -> (r: bool)
    ensures
        r == occurs_at(h@, n@, i as int),
{
    if n.len() > h.len() || i > h.len() - n.len() {
        return false;
    }
    let mut t: usize = 0;
    while t < n.len()
        invariant
            t <= n.len(),
            i + n.len() <= h.len(),
            forall|u: int| 0 <= u < t ==> h@[i + u] == n@[u],
        decreases n.len() - t,
    {
        if h[i + t] != n[t] {
            proof {
                let sub = h@.subrange(i as int, i + n.len());
                assert(sub[t as int] == h@[i + t]);
            }
            return false;
        }
        t += 1;
    }
    assert(h@.subrange(i as int, i + n.len()) =~= n@);
    true
}

/// Index of the first occurrence of `n` in `h`, if any.
pub fn find_sub(h: &Vec<char>, n: &Vec<char>) -> (r: Option<usize>)
    ensures
        match r {
            Some(i) => i + n.len() <= h.len() && search(h@, n@) == Some(i as int),
            None => search(h@, n@) is None,
        },
{
    let mut i: usize = 0;
    while i <= h.len()
        invariant
            i <= h.len() + 1,
            forall|j: int| 0 <= j < i ==> !occurs_at(h@, n@, j),
        decreases h.len() + 1 - i,
    {
        if matches_at(h, n, i) {
            proof {
                lemma_search_found(h@, n@, 0, i as int);
            }
            return Some(i);
        }
        if i == h.len() {
            proof {
                lemma_search_absent(h@, n@, 0);
            }
            return None;
        }
        i += 1;
    }
    proof {
        lemma_search_absent(h@, n@, 0);
    }
    None
}

/// Whether `s` begins with `p`.
pub fn has_prefix(s: &Vec<char>, p: &Vec<char>) -> (r: bool)
    ensures
        r == starts_with(s@, p@),
{
    let r = matches_at(s, p, 0);
    proof {
        if p.len() <= s.len() {
            assert(s@.take(p.len() as int) =~= s@.subrange(0, 0 + p.len()));
        }
    }
    r
}

/// Whether `s` ends with `p`.
pub fn has_suffix(s: &Vec<char>, p: &Vec<char>) -> (r: bool)
    ensures
        r == ends_with(s@, p@),
{
    if p.len() > s.len() {
        return false;
    }
    let at: usize = s.len() - p.len();
    let r = matches_at(s, p, at);
    proof {
        assert(s@.skip(s.len() - p.len()) =~= s@.subrange(at as int, at + p.len()));
    }
    r
}

/// The views of the lines held in `v`.
pub open spec fn line_views(v: Seq<Vec<char>>) -> Seq<Seq<char>> {
    Seq::new(v.len(), |i: int| v[i]@)
}

/// Whether `c` is an ASCII decimal digit.
pub open spec fn is_digit(c: char) -> bool {
    48 <= c as u32 <= 57
}

/// Whether `s` holds ASCII decimal digits only.
pub open spec fn all_digits(s: Seq<char>) -> bool {
    forall|i: int| 0 <= i < s.len() ==> is_digit(#[trigger] s[i])
}

/// The number that the decimal digits of `s` write.
pub open spec fn digits_value(s: Seq<char>) -> nat
    decreases s.len(),
{
    if s.len() == 0 {
        0
    } else {
        digits_value(s.drop_last()) * 10 + (s.last() as u32 - 48) as nat
    }
}

/// `s` without one leading plus sign.
pub open spec fn unsigned_digits(s: Seq<char>) -> Seq<char> {
    if s.len() > 0 && s[0] == '+' {
        s.drop_first()
    } else {
        s
    }
}

/// The unsigned decimal number that `s` writes, where it writes one no
/// larger than `max`: an optional plus sign, then at least one digit and
/// nothing else.
pub open spec fn parse_unsigned(s: Seq<char>, max: nat) -> Option<nat> {
    let d = unsigned_digits(s);
    if d.len() > 0 && all_digits(d) && digits_value(d) <= max {
        Some(digits_value(d))
    } else {
        None
    }
}

/// The decimal digits that write `n`, without leading zeros.
pub open spec fn digits_of(n: nat) -> Seq<char>
    decreases n,
{
    if n < 10 {
        seq![(n + 48) as char]
    } else {
        digits_of(n / 10).push((n % 10 + 48) as char)
    }
}

/// The digits that write `n` are digits only, at least one, and read
/// back as `n` under any bound that admits it.
pub proof fn lemma_digits_round_trip(n: nat, max: nat)
    requires
        n <= max,
    ensures
        digits_of(n).len() > 0,
        all_digits(digits_of(n)),
        digits_value(digits_of(n)) == n,
        parse_unsigned(digits_of(n), max) == Some(n),
    decreases n,
{
    let d = digits_of(n);
    if n < 10 {
        assert(d.drop_last() =~= Seq::<char>::empty());
        assert(digits_value(d.drop_last()) == 0);
        assert(d[0] as u32 == n + 48);
        assert(d.last() == d[0]);
        assert(digits_value(d) == n);
    } else {
        lemma_digits_round_trip(n / 10, n / 10);
        let e = digits_of(n / 10);
        assert(d.drop_last() =~= e);
        assert(d.last() as u32 == n % 10 + 48);
        assert(d[0] == e[0]);
        assert forall|i: int| 0 <= i < d.len() implies is_digit(#[trigger] d[i]) by {
            if i < e.len() {
                assert(d[i] == e[i]);
            }
        }
        assert(digits_value(d) == digits_value(e) * 10 + (d.last() as u32 - 48) as nat);
    }
    assert(is_digit(d[0]));
    assert(d[0] != '+');
}

/// A digit string is worth at least as much as each of its prefixes.
pub proof fn lemma_digits_value_prefix(d: Seq<char>, k: int)
    requires
        0 <= k <= d.len(),
        all_digits(d),
    ensures
        digits_value(d.take(k)) <= digits_value(d),
    decreases d.len() - k,
{
    if k == d.len() {
        assert(d.take(k) =~= d);
    } else {
        let e = d.drop_last();
        assert(e.take(k) =~= d.take(k));
        assert(is_digit(d[d.len() - 1]));
        assert forall|i: int| 0 <= i < e.len() implies is_digit(#[trigger] e[i]) by {
            assert(e[i] == d[i]);
        }
        lemma_digits_value_prefix(e, k);
    }
}

/// `s` without leading and trailing whitespace.
pub fn trimmed(s: &Vec<char>) -> (out: Vec<char>)
    ensures
        out@ == trim(s@),
{
    let mut lo: usize = 0;
    assert(s@.skip(0) =~= s@);
    while lo < s.len() && char_is_whitespace(s[lo])
        invariant
            lo <= s.len(),
            trim_start(s@) == trim_start(s@.skip(lo as int)),
        decreases s.len() - lo,
    {
        proof {
            assert(s@.skip(lo as int).drop_first() =~= s@.skip(lo + 1));
        }
        lo += 1;
    }
    assert(trim_start(s@) == s@.skip(lo as int));
    let mut hi: usize = s.len();
    assert(s@.skip(lo as int) =~= s@.subrange(lo as int, hi as int));
    while hi > lo && char_is_whitespace(s[hi - 1])
        invariant
            lo <= hi <= s.len(),
            trim(s@) == trim_end(s@.subrange(lo as int, hi as int)),
        decreases hi,
    {
        proof {
            assert(s@.subrange(lo as int, hi as int).drop_last() =~= s@.subrange(
                lo as int,
                hi - 1,
            ));
        }
        hi -= 1;
    }
    slice_of(s, lo, hi)
}

/// `s` without its leading run of `c`.
pub fn without_leading(s: &Vec<char>, c: char) -> (out: Vec<char>)
    ensures
        out@ == strip_leading(s@, c),
{
    let mut lo: usize = 0;
    assert(s@.skip(0) =~= s@);
    while lo < s.len() && s[lo] == c
        invariant
            lo <= s.len(),
            strip_leading(s@, c) == strip_leading(s@.skip(lo as int), c),
        decreases s.len() - lo,
    {
        proof {
            assert(s@.skip(lo as int).drop_first() =~= s@.skip(lo + 1));
        }
        lo += 1;
    }
    assert(s@.skip(lo as int) =~= s@.subrange(lo as int, s.len() as int));
    slice_of(s, lo, s.len())
}

/// The first whitespace-delimited token of `s` and what follows it.
pub fn split_token(s: &Vec<char>) -> (out: (Vec<char>, Vec<char>))
    ensures
        out.0@ == first_token(s@),
        out.1@ == after_first_token(s@),
{
    let mut lo: usize = 0;
    assert(s@.skip(0) =~= s@);
    while lo < s.len() && char_is_whitespace(s[lo])
        invariant
            lo <= s.len(),
            trim_start(s@) == trim_start(s@.skip(lo as int)),
        decreases s.len() - lo,
    {
        proof {
            assert(s@.skip(lo as int).drop_first() =~= s@.skip(lo + 1));
        }
        lo += 1;
    }
    let ghost t = s@.skip(lo as int);
    assert(trim_start(s@) == t);
    let mut hi: usize = lo;
    while hi < s.len() && !char_is_whitespace(s[hi])
        invariant
            lo <= hi <= s.len(),
            t == s@.skip(lo as int),
            token_len(t) == (hi - lo) + token_len(s@.skip(hi as int)),
        decreases s.len() - hi,
    {
        proof {
            assert(s@.skip(hi as int).drop_first() =~= s@.skip(hi + 1));
        }
        hi += 1;
    }
    assert(token_len(t) == hi - lo);
    assert(t.take(hi - lo) =~= s@.subrange(lo as int, hi as int));
    assert(t.skip(hi - lo) =~= s@.subrange(hi as int, s.len() as int));
    (slice_of(s, lo, hi), slice_of(s, hi, s.len()))
}

/// The lines of `s`.
pub fn split_lines(s: &Vec<char>) -> (out: Vec<Vec<char>>)
    ensures
        line_views(out@) == lines(s@),
{
    let mut out: Vec<Vec<char>> = Vec::new();
    let mut start: usize = 0;
    assert(s@.skip(0) =~= s@);
    assert(line_views(out@) + lines(s@) =~= lines(s@));
    while start < s.len()
        invariant
            start <= s.len(),
            lines(s@) == line_views(out@) + lines(s@.skip(start as int)),
        decreases s.len() - start,
    {
        let ghost rest = s@.skip(start as int);
        let mut end: usize = start;
        while end < s.len() && s[end] != '\n'
            invariant
                start <= end <= s.len(),
                rest == s@.skip(start as int),
                forall|j: int| 0 <= j < end - start ==> rest[j] != '\n',
            decreases s.len() - end,
        {
            end += 1;
        }
        proof {
            lemma_position_unique(rest, '\n', end - start);
        }
        let ghost before = line_views(out@);
        if end == s.len() {
            assert(rest =~= s@.subrange(start as int, end as int));
            let line = slice_of(s, start, end);
            out.push(line);
            assert(line_views(out@) =~= before + seq![rest]);
            assert(lines(s@.skip(end as int)) =~= Seq::<Seq<char>>::empty());
            assert(before + seq![rest] =~= before + lines(rest));
            start = end;
        } else {
            let mut stop: usize = end;
            assert(rest.take(end - start) =~= s@.subrange(start as int, end as int));
            if stop > start && s[stop - 1] == '\r' {
                stop -= 1;
            }
            assert(strip_cr(rest.take(end - start)) =~= s@.subrange(start as int, stop as int));
            let line = slice_of(s, start, stop);
            out.push(line);
            assert(line_views(out@) =~= before + seq![line@]);
            assert(rest.skip(end - start + 1) =~= s@.skip(end + 1));
            assert(before + (seq![line@] + lines(s@.skip(end + 1))) =~= (before + seq![line@])
                + lines(s@.skip(end + 1)));
            start = end + 1;
        }
    }
    assert(line_views(out@) + lines(s@.skip(start as int)) =~= line_views(out@));
    out
}

/// The code of `c` with ASCII upper-case letters mapped to lower case.
pub fn char_lower_code(c: char) -> (r: u32)
    ensures
        r == lower_code(c),
{
    let u: u32 = c as u32;
    if 65 <= u && u <= 90 {
        u + 32
    } else {
        u
    }
}

/// Whether `a` and `b` are equal up to the case of ASCII letters.
pub fn same_ignoring_case(a: &Vec<char>, b: &Vec<char>) -> (r: bool)
    ensures
        r == eq_ignore_ascii_case(a@, b@),
{
    if a.len() != b.len() {
        return false;
    }
    let mut i: usize = 0;
    while i < a.len()
        invariant
            i <= a.len(),
            a.len() == b.len(),
            forall|j: int| 0 <= j < i ==> lower_code(#[trigger] a@[j]) == lower_code(b@[j]),
        decreases a.len() - i,
    {
        if char_lower_code(a[i]) != char_lower_code(b[i]) {
            return false;
        }
        i += 1;
    }
    true
}

/// The unsigned decimal number that `s` writes, where it is at most `max`.
pub fn parse_bounded(s: &Vec<char>, max: u64) -> (r: Option<u64>)
    ensures
        match r {
            Some(v) => parse_unsigned(s@, max as nat) == Some(v as nat),
            None => parse_unsigned(s@, max as nat) is None,
        },
{
    let start: usize = if s.len() > 0 && s[0] == '+' {
        1
    } else {
        0
    };
    let ghost d = unsigned_digits(s@);
    assert(d =~= s@.skip(start as int));
    if start == s.len() {
        return None;
    }
    let mut acc: u64 = 0;
    let mut i: usize = start;
    assert(d.take(0) =~= Seq::<char>::empty());
    while i < s.len()
        invariant
            start <= i <= s.len(),
            d == s@.skip(start as int),
            d == unsigned_digits(s@),
            all_digits(d.take(i - start)),
            acc as nat == digits_value(d.take(i - start)),
            acc <= max,
        decreases s.len() - i,
    {
        let c: char = s[i];
        let u: u32 = c as u32;
        assert(d[i - start] == c);
        if u < 48 || u > 57 {
            assert(!is_digit(d[i - start]));
            assert(!all_digits(d));
            return None;
        }
        let ghost p = d.take(i - start + 1);
        assert(p.drop_last() =~= d.take(i - start));
        assert(p.last() == s@[i as int]);
        assert forall|j: int| 0 <= j < p.len() implies is_digit(#[trigger] p[j]) by {
            if j < i - start {
                assert(p[j] == d.take(i - start)[j]);
            }
        }
        let next: u128 = (acc as u128) * 10 + ((u - 48) as u128);
        assert(next as nat == digits_value(p));
        if next > max as u128 {
            proof {
                if all_digits(d) {
                    lemma_digits_value_prefix(d, i - start + 1);
                    assert(digits_value(d) > max);
                }
            }
            return None;
        }
        acc = next as u64;
        i += 1;
    }
    assert(d.take(i - start) =~= d);
    Some(acc)
}

/// The decimal digits that write `n`.
pub fn decimal(n: u64) -> (out: Vec<char>)
    ensures
        out@ == digits_of(n as nat),
{
    let mut reversed: Vec<char> = Vec::new();
    let mut rest: u64 = n;
    let ghost mut tail: Seq<char> = Seq::empty();
    while rest >= 10
        invariant
            tail.len() == reversed@.len(),
            forall|j: int| 0 <= j < tail.len() ==> tail[j] == reversed@[tail.len() - 1 - j],
            digits_of(n as nat) == digits_of(rest as nat) + tail,
        decreases rest,
    {
        let digit: u8 = (rest % 10) as u8 + 48;
        let c: char = digit as char;
        proof {
            let longer = seq![c] + tail;
            assert(digits_of(rest as nat) == digits_of((rest / 10) as nat).push(c));
            assert(digits_of((rest / 10) as nat).push(c) + tail =~= digits_of((rest / 10) as nat)
                + longer);
            tail = longer;
        }
        reversed.push(c);
        rest = rest / 10;
    }
    let digit: u8 = rest as u8 + 48;
    let first: char = digit as char;
    let mut out: Vec<char> = Vec::new();
    out.push(first);
    let mut i: usize = reversed.len();
    assert(digits_of(rest as nat) =~= seq![first]);
    while i > 0
        invariant
            i <= reversed.len(),
            tail.len() == reversed@.len(),
            forall|j: int| 0 <= j < tail.len() ==> tail[j] == reversed@[tail.len() - 1 - j],
            out@ == seq![first] + tail.take(reversed.len() - i),
        decreases i,
    {
        i -= 1;
        out.push(reversed[i]);
        assert(out@ =~= seq![first] + tail.take(reversed.len() - i));
    }
    assert(tail.take(reversed.len() as int) =~= tail);
    out
}

} // verus!
