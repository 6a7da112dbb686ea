//! Locating an HTTP request in captured bytes and resolving its absolute URL.

use crate::bytes::{find_bytes, utf8_strict};
use crate::text::{
    after_first_token, append_chars, chars_of, eq_ignore_ascii_case, find_char, first_token,
    has_prefix, line_views, lines, position, same_ignoring_case, search, slice_of, split_lines,
    split_token, starts_with, string_of, strip_leading, trim, trimmed, without_leading,
};
use vstd::prelude::*;
use vstd::utf8::{decode_utf8, valid_utf8};

verus! {

/// Only the first `SCAN_CAP` bytes of a blob are searched for a request.
pub const SCAN_CAP: usize = 4096;

/// A request whose header block has not ended is cut to this many bytes.
pub const PARTIAL_CAP: usize = 1024;

/// The bytes `GET `.
pub open spec fn get_marker() -> Seq<u8> {
    seq![71u8, 69u8, 84u8, 32u8]
}

/// The bytes CR LF CR LF that end a header block.
pub open spec fn header_end() -> Seq<u8> {
    seq![13u8, 10u8, 13u8, 10u8]
}

/// The first `n` elements of `s`, or all of `s` when it holds fewer.
pub open spec fn capped(s: Seq<u8>, n: int) -> Seq<u8> {
    if s.len() <= n {
        s
    } else {
        s.take(n)
    }
}

/// The bytes of the request found in `data`: from the first `GET ` that
/// lies within the scan cap, up to and including the first CR LF CR LF
/// after it, or cut to the partial cap when the header block has no end.
pub open spec fn request_region(data: Seq<u8>) -> Option<Seq<u8>> {
    match search(capped(data, SCAN_CAP as int), get_marker()) {
        None => None,
        Some(start) => {
            let tail = data.skip(start);
            match search(tail, header_end()) {
                Some(end) => Some(tail.take(end + 4)),
                None => Some(capped(tail, PARTIAL_CAP as int)),
            }
        },
    }
}

/// What lossy UTF-8 decoding makes of `bytes`.
pub uninterp spec fn utf8_lossy(bytes: Seq<u8>) -> Seq<char>;

/// The text of `bytes`: their characters when they are valid UTF-8,
/// otherwise their lossy decoding.
pub open spec fn decoded(bytes: Seq<u8>) -> Seq<char> {
    if valid_utf8(bytes) {
        decode_utf8(bytes)
    } else {
        utf8_lossy(bytes)
    }
}

/// The line terminator written after each unfolded line.
pub open spec fn crlf() -> Seq<char> {
    seq!['\r', '\n']
}

/// Whether `line` continues the header before it.
pub open spec fn is_continuation(line: Seq<char>) -> bool {
    line.len() > 0 && (line[0] == ' ' || line[0] == '\t')
}

/// The pending line as it is written out: nothing when it is empty.
pub open spec fn flushed(current: Seq<char>) -> Seq<char> {
    if current.len() == 0 {
        Seq::empty()
    } else {
        current + crlf()
    }
}

/// The unfolded text of the header lines `rest`, with `current` pending.
/// A continuation line is trimmed and joined to the pending line by one
/// space; any other line writes the pending line out and becomes pending.
pub open spec fn unfold_rest(rest: Seq<Seq<char>>, current: Seq<char>) -> Seq<char>
    decreases rest.len(),
{
    if rest.len() == 0 {
        flushed(current)
    } else if is_continuation(rest[0]) {
        unfold_rest(rest.drop_first(), current + seq![' '] + trim(rest[0]))
    } else {
        flushed(current) + unfold_rest(rest.drop_first(), rest[0])
    }
}

/// `text` with folded header lines joined: the request line as it is,
/// then the header lines unfolded, each line ended by CR LF.
pub open spec fn unfolded(text: Seq<char>) -> Seq<char> {
    let ls = lines(text);
    if ls.len() == 0 {
        Seq::empty()
    } else {
        ls[0] + crlf() + unfold_rest(ls.drop_first(), Seq::empty())
    }
}

/// The target of a request line `METHOD target ...`.
pub open spec fn request_target(request_line: Seq<char>) -> Option<Seq<char>> {
    let line = trim(request_line);
    let target = first_token(after_first_token(line));
    if first_token(line).len() == 0 || target.len() == 0 {
        None
    } else {
        Some(target)
    }
}

/// Number of lines of `ls` that stand before its first empty line.
pub open spec fn header_count(ls: Seq<Seq<char>>) -> int
    decreases ls.len(),
{
    if ls.len() == 0 || ls[0].len() == 0 {
        0
    } else {
        1 + header_count(ls.drop_first())
    }
}

/// The header lines of the request whose lines are `ls`: those behind
/// the request line, up to the first empty line.
pub open spec fn header_lines(ls: Seq<Seq<char>>) -> Seq<Seq<char>> {
    let rest = ls.drop_first();
    rest.take(header_count(rest))
}

/// Whether `target` is an absolute URI.
pub open spec fn is_absolute(target: Seq<char>) -> bool {
    starts_with(target, "http://"@) || starts_with(target, "https://"@)
}

/// The trimmed value of `line` where it is a `Host` header.
pub open spec fn host_of(line: Seq<char>) -> Option<Seq<char>> {
    let i = position(line, ':');
    if i < line.len() && eq_ignore_ascii_case(trim(line.take(i)), "host"@) {
        Some(trim(line.skip(i + 1)))
    } else {
        None
    }
}

/// The value of the first `Host` header among `ls`, read up to the first
/// line that is blank once trimmed.
pub open spec fn find_host(ls: Seq<Seq<char>>) -> Option<Seq<char>>
    decreases ls.len(),
{
    if ls.len() == 0 {
        None
    } else {
        let line = trim(ls[0]);
        if line.len() == 0 {
            None
        } else {
            match host_of(line) {
                Some(h) => Some(h),
                None => find_host(ls.drop_first()),
            }
        }
    }
}

/// `http://<host>/<target>`, the leading slashes of the target removed.
pub open spec fn compose_url(host: Seq<char>, target: Seq<char>) -> Seq<char> {
    "http://"@ + host + seq!['/'] + strip_leading(target, '/')
}

/// The absolute URL of the request written in `text`. The first line is
/// the request line. Where its target is an absolute URI, that is the
/// URL. Otherwise the header lines, which end at the first empty line,
/// are unfolded and read for a `Host` header, and the URL is composed of
/// its value and the target.
pub open spec fn recovered_url(text: Seq<char>) -> Option<Seq<char>> {
    let ls = lines(text);
    if ls.len() == 0 {
        None
    } else {
        match request_target(ls[0]) {
            None => None,
            Some(target) => if is_absolute(target) {
                Some(target)
            } else {
                match find_host(lines(unfold_rest(header_lines(ls), Seq::empty()))) {
                    Some(host) => Some(compose_url(host, target)),
                    None => None,
                }
            },
        }
    }
}

/// `String::from_utf8_lossy`: the text of `bytes`, each invalid sequence
/// replaced; the contract only names the result.
#[verifier::external_body]
fn utf8_lossy_string(bytes: &[u8]) -> (r: String)
    ensures
        r@ == utf8_lossy(bytes@),
{
    String::from_utf8_lossy(bytes).into_owned()
}

/// The text of `bytes`, decoded strictly where possible and lossily otherwise.
pub fn decode_text(bytes: &[u8]) -> (r: String)
    ensures
        r@ == decoded(bytes@),
{
    match utf8_strict(bytes) {
        Some(s) => s,
        None => utf8_lossy_string(bytes),
    }
}

/// The bytes of the request found in `data`, if any.
pub fn find_request_region(data: &[u8]) -> (r: Option<&[u8]>)
    ensures
        match r {
            Some(region) => request_region(data@) == Some(region@),
            None => request_region(data@) is None,
        },
{
    let marker: Vec<u8> = vec![71u8, 69u8, 84u8, 32u8];
    let ending: Vec<u8> = vec![13u8, 10u8, 13u8, 10u8];
    assert(marker@ =~= get_marker());
    assert(ending@ =~= header_end());
    let window: &[u8] = if data.len() <= SCAN_CAP {
        data
    } else {
        &data[0..SCAN_CAP]
    };
    assert(window@ =~= capped(data@, SCAN_CAP as int));
    match find_bytes(window, marker.as_slice()) {
        None => None,
        Some(start) => {
            proof {
                crate::text::lemma_search_from(window@, marker@, 0);
            }
            let tail: &[u8] = &data[start..data.len()];
            assert(tail@ =~= data@.skip(start as int));
            match find_bytes(tail, ending.as_slice()) {
                Some(end) => {
                    proof {
                        crate::text::lemma_search_from(tail@, ending@, 0);
                    }
                    let region: &[u8] = &tail[0..end + 4];
                    assert(region@ =~= tail@.take(end + 4));
                    Some(region)
                },
                None => {
                    let region: &[u8] = if tail.len() <= PARTIAL_CAP {
                        tail
                    } else {
                        &tail[0..PARTIAL_CAP]
                    };
                    assert(region@ =~= capped(tail@, PARTIAL_CAP as int));
                    Some(region)
                },
            }
        },
    }
}

/// The text of the request found in `data`, if any.
pub fn find_http_in_packet(data: &[u8]) -> (r: Option<String>)
    ensures
        match r {
            Some(text) => request_region(data@) matches Some(region) && text@ == decoded(region),
            None => request_region(data@) is None,
        },
{
    match find_request_region(data) {
        Some(region) => Some(decode_text(region)),
        None => None,
    }
}

/// The absolute URL of the request found in the bytes `data`.
pub open spec fn url_in(data: Seq<u8>) -> Option<Seq<char>> {
    match request_region(data) {
        None => None,
        Some(region) => recovered_url(decoded(region)),
    }
}

/// A header line followed by a continuation line, which begins with a
/// space or a tab, unfolds to one line: the header, exactly one space,
/// and the continuation without the whitespace around it.
pub proof fn lemma_folded_header_joins(
    header: Seq<char>,
    continuation: Seq<char>,
    rest: Seq<Seq<char>>,
    current: Seq<char>,
)
    requires
        !is_continuation(header),
        is_continuation(continuation),
    ensures
        unfold_rest(seq![header, continuation] + rest, current) == flushed(current) + unfold_rest(
            rest,
            header + seq![' '] + trim(continuation),
        ),
        unfold_rest(seq![header, continuation], current) == flushed(current) + (header + seq![' ']
            + trim(continuation) + crlf()),
{
    let all = seq![header, continuation] + rest;
    let tail = seq![continuation] + rest;
    assert(all[0] == header);
    assert(all.drop_first() =~= tail);
    assert(tail[0] == continuation);
    assert(tail.drop_first() =~= rest);
    assert(unfold_rest(tail, header) == unfold_rest(rest, header + seq![' '] + trim(continuation)));
    let pair = seq![header, continuation];
    let last = seq![continuation];
    let joined = header + seq![' '] + trim(continuation);
    assert(pair[0] == header);
    assert(pair.drop_first() =~= last);
    assert(last[0] == continuation);
    assert(last.drop_first() =~= Seq::<Seq<char>>::empty());
    assert(unfold_rest(last.drop_first(), joined) == joined + crlf());
    assert(unfold_rest(last, header) == joined + crlf());
}

/// `header` with each of `continuations` joined to it in turn: one
/// space, then the continuation without the whitespace around it.
pub open spec fn folded(header: Seq<char>, continuations: Seq<Seq<char>>) -> Seq<char>
    decreases continuations.len(),
{
    if continuations.len() == 0 {
        header
    } else {
        folded(header + seq![' '] + trim(continuations[0]), continuations.drop_first())
    }
}

proof fn lemma_continuations_fold(
    pending: Seq<char>,
    continuations: Seq<Seq<char>>,
    rest: Seq<Seq<char>>,
)
    requires
        forall|i: int| 0 <= i < continuations.len() ==> is_continuation(#[trigger] continuations[i]),
    ensures
        unfold_rest(continuations + rest, pending) == unfold_rest(
            rest,
            folded(pending, continuations),
        ),
    decreases continuations.len(),
{
    let all = continuations + rest;
    if continuations.len() == 0 {
        assert(all =~= rest);
    } else {
        let first = continuations[0];
        let others = continuations.drop_first();
        assert(all[0] == first);
        assert(all.drop_first() =~= others + rest);
        assert forall|i: int| 0 <= i < others.len() implies is_continuation(
            #[trigger] others[i],
        ) by {
            assert(others[i] == continuations[i + 1]);
        }
        lemma_continuations_fold(pending + seq![' '] + trim(first), others, rest);
    }
}

/// A header line followed by any number of continuation lines unfolds to
/// one line: the header with each continuation joined by exactly one space.
pub proof fn lemma_folded_lines_join(
    header: Seq<char>,
    continuations: Seq<Seq<char>>,
    rest: Seq<Seq<char>>,
    current: Seq<char>,
)
    requires
        !is_continuation(header),
        forall|i: int| 0 <= i < continuations.len() ==> is_continuation(#[trigger] continuations[i]),
    ensures
        unfold_rest(seq![header] + continuations + rest, current) == flushed(current) + unfold_rest(
            rest,
            folded(header, continuations),
        ),
{
    let all = seq![header] + continuations + rest;
    assert(all[0] == header);
    assert(all.drop_first() =~= continuations + rest);
    lemma_continuations_fold(header, continuations, rest);
}

/// The unfolded text of the lines of `ls` from `from` up to `to`.
pub fn unfold_lines(ls: &Vec<Vec<char>>, from: usize, to: usize) -> (out: Vec<char>)
    requires
        from <= to <= ls.len(),
    ensures
        out@ == unfold_rest(line_views(ls@).subrange(from as int, to as int), Seq::empty()),
{
    let ghost block = line_views(ls@).subrange(from as int, to as int);
    let mut result: Vec<char> = Vec::new();
    let mut current: Vec<char> = Vec::new();
    let mut i: usize = from;
    assert(block.skip(0) =~= block);
    assert(result@ + unfold_rest(block, current@) =~= unfold_rest(block, current@));
    while i < to
        invariant
            from <= i <= to <= ls.len(),
            block == line_views(ls@).subrange(from as int, to as int),
            unfold_rest(block, Seq::empty()) == result@ + unfold_rest(
                block.skip(i - from),
                current@,
            ),
        decreases to - i,
    {
        let line = &ls[i];
        let ghost rest = block.skip(i - from);
        let ghost before = result@;
        let ghost pending = current@;
        assert(rest[0] == line@);
        assert(rest.drop_first() =~= block.skip(i + 1 - from));
        if line.len() > 0 && (line[0] == ' ' || line[0] == '\t') {
            current.push(' ');
            let body = trimmed(line);
            append_chars(&mut current, &body);
            assert(current@ =~= pending + seq![' '] + trim(line@));
        } else {
            if current.len() > 0 {
                append_chars(&mut result, &current);
                result.push('\r');
                result.push('\n');
            }
            assert(result@ =~= before + flushed(pending));
            current = slice_of(line, 0, line.len());
            assert(current@ =~= line@);
            assert(before + (flushed(pending) + unfold_rest(rest.drop_first(), line@)) =~= (before
                + flushed(pending)) + unfold_rest(rest.drop_first(), line@));
        }
        i += 1;
    }
    let ghost before = result@;
    if current.len() > 0 {
        append_chars(&mut result, &current);
        result.push('\r');
        result.push('\n');
    }
    assert(result@ =~= before + flushed(current@));
    result
}

/// The unfolded form of `text`.
pub fn unfold_chars(text: &Vec<char>) -> (out: Vec<char>)
    ensures
        out@ == unfolded(text@),
{
    let ls = split_lines(text);
    let mut result: Vec<char> = Vec::new();
    if ls.len() == 0 {
        return result;
    }
    let ghost all = lines(text@);
    append_chars(&mut result, &ls[0]);
    result.push('\r');
    result.push('\n');
    assert(result@ =~= all[0] + crlf());
    assert(all.drop_first() =~= all.subrange(1, ls.len() as int));
    let headers = unfold_lines(&ls, 1, ls.len());
    append_chars(&mut result, &headers);
    result
}

/// Joins header lines that were folded over several lines.
pub fn unfold_http_headers(http_data: &str) -> (out: String)
    ensures
        out@ == unfolded(http_data@),
{
    let text = chars_of(http_data);
    let result = unfold_chars(&text);
    string_of(&result)
}

/// The target of a request line.
pub fn target_of(request_line: &Vec<char>) -> (r: Option<Vec<char>>)
    ensures
        match r {
            Some(t) => request_target(request_line@) == Some(t@),
            None => request_target(request_line@) is None,
        },
{
    let line = trimmed(request_line);
    let (method, after) = split_token(&line);
    let (target, _rest) = split_token(&after);
    if method.len() == 0 || target.len() == 0 {
        None
    } else {
        Some(target)
    }
}

/// The value of `line` where it is a `Host` header.
pub fn host_in(line: &Vec<char>) -> (r: Option<Vec<char>>)
    ensures
        match r {
            Some(h) => host_of(line@) == Some(h@),
            None => host_of(line@) is None,
        },
{
    let i = find_char(line, ':');
    if i >= line.len() {
        return None;
    }
    let name = trimmed(&slice_of(line, 0, i));
    let host = chars_of("host");
    assert(line@.take(i as int) =~= line@.subrange(0, i as int));
    if same_ignoring_case(&name, &host) {
        assert(line@.skip(i + 1) =~= line@.subrange(i + 1, line.len() as int));
        Some(trimmed(&slice_of(line, i + 1, line.len())))
    } else {
        None
    }
}

/// The absolute URL of the request written in `http_data`, if it holds a
/// request line with a target that is absolute or comes with a `Host`
/// header before the first empty line.
pub fn parse_http_request(http_data: &str) -> (r: Option<String>)
    ensures
        match r {
            Some(url) => recovered_url(http_data@) == Some(url@),
            None => recovered_url(http_data@) is None,
        },
{
    let text = chars_of(http_data);
    let ls = split_lines(&text);
    if ls.len() == 0 {
        return None;
    }
    let ghost all = lines(http_data@);
    let target = match target_of(&ls[0]) {
        None => {
            return None;
        },
        Some(t) => t,
    };
    let plain = chars_of("http://");
    let secure = chars_of("https://");
    if has_prefix(&target, &plain) || has_prefix(&target, &secure) {
        return Some(string_of(&target));
    }
    let ghost rest = all.drop_first();
    let mut end: usize = 1;
    assert(rest.skip(0) =~= rest);
    while end < ls.len() && ls[end].len() > 0
        invariant
            1 <= end <= ls.len(),
            line_views(ls@) == all,
            rest == all.drop_first(),
            header_count(rest) == (end - 1) + header_count(rest.skip(end - 1)),
        decreases ls.len() - end,
    {
        assert(rest.skip(end - 1)[0] == ls@[end as int]@);
        assert(rest.skip(end - 1).drop_first() =~= rest.skip(end as int));
        end += 1;
    }
    proof {
        if end < ls.len() {
            assert(rest.skip(end - 1)[0] == ls@[end as int]@);
        }
        assert(header_count(rest) == end - 1);
        assert(header_lines(all) =~= all.subrange(1, end as int));
    }
    let headers = split_lines(&unfold_lines(&ls, 1, end));
    let ghost hs = line_views(headers@);
    let mut i: usize = 0;
    assert(hs.skip(0) =~= hs);
    while i < headers.len()
        invariant
            i <= headers.len(),
            line_views(headers@) == hs,
            plain@ == "http://"@,
            find_host(hs) == find_host(hs.skip(i as int)),
            recovered_url(http_data@) == match find_host(hs) {
                Some(host) => Some(compose_url(host, target@)),
                None => None,
            },
        decreases headers.len() - i,
    {
        let line = trimmed(&headers[i]);
        assert(hs.skip(i as int)[0] == headers@[i as int]@);
        assert(hs.skip(i as int).drop_first() =~= hs.skip(i + 1));
        if line.len() == 0 {
            return None;
        }
        match host_in(&line) {
            Some(host) => {
                let mut url: Vec<char> = Vec::new();
                append_chars(&mut url, &plain);
                append_chars(&mut url, &host);
                url.push('/');
                append_chars(&mut url, &without_leading(&target, '/'));
                assert(url@ =~= compose_url(host@, target@));
                return Some(string_of(&url));
            },
            None => {},
        }
        i += 1;
    }
    None
}

/// The absolute URL of the request found in the bytes `data`, if any.
pub fn extract_url(data: &[u8]) -> (r: Option<String>)
    ensures
        match r {
            Some(url) => url_in(data@) == Some(url@),
            None => url_in(data@) is None,
        },
{
    match find_http_in_packet(data) {
        Some(text) => parse_http_request(text.as_str()),
        None => None,
    }
}

} // verus!
