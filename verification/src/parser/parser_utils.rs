//! From comments to documentation.
//!
//! A comment is a text between `/*` and `*/`. Its documentation is what is
//! left when the frame is taken off: the opening `/*` with the stars behind
//! it, the closing `*/` with the stars before it, and, on every line between
//! the first and the last, the white space and the stars at the start.

use vstd::prelude::*;
use crate::utils::text::{chars_of, is_whitespace, join, string_of, texts, unicode_whitespace};

verus! {

/// `s` without the white space at its start.
pub open spec fn trim_start(s: Seq<char>) -> Seq<char>
    decreases s.len(),
{
    if s.len() > 0 && unicode_whitespace(s[0]) {
        trim_start(s.drop_first())
    } else {
        s
    }
}

/// `s` without the white space at its end.
pub open spec fn trim_end(s: Seq<char>) -> Seq<char>
    decreases s.len(),
{
    if s.len() > 0 && unicode_whitespace(s.last()) {
        trim_end(s.drop_last())
    } else {
        s
    }
}

/// `s` without the white space at its start and at its end.
pub open spec fn trim(s: Seq<char>) -> Seq<char> {
    trim_end(trim_start(s))
}

/// `s` without `pat` at its start, as often as it stands there.
pub open spec fn strip_start_all(s: Seq<char>, pat: Seq<char>) -> Seq<char>
    decreases s.len(),
{
    if pat.len() > 0 && pat.len() <= s.len() && s.subrange(0, pat.len() as int) == pat {
        strip_start_all(s.skip(pat.len() as int), pat)
    } else {
        s
    }
}

/// `s` without `pat` at its end, as often as it stands there.
pub open spec fn strip_end_all(s: Seq<char>, pat: Seq<char>) -> Seq<char>
    decreases s.len(),
{
    if pat.len() > 0 && pat.len() <= s.len() && s.subrange(s.len() - pat.len(), s.len() as int)
        == pat {
        strip_end_all(s.take(s.len() - pat.len()), pat)
    } else {
        s
    }
}

/// The position of the first line feed from `from` on, or the length of `s`.
pub open spec fn line_break(s: Seq<char>, from: int) -> int
    decreases s.len() - from,
{
    if 0 <= from < s.len() && s[from] != '\n' {
        line_break(s, from + 1)
    } else {
        from
    }
}

/// A line without the carriage return at its end, if it has one.
pub open spec fn without_return(line: Seq<char>) -> Seq<char> {
    if line.len() > 0 && line.last() == '\r' {
        line.drop_last()
    } else {
        line
    }
}

/// The lines of `s` from `from` on. A line ends at a line feed; the line
/// feed, and a carriage return before it, are not part of the line. What
/// follows the last line feed is a line if it is not empty.
pub open spec fn lines_from(s: Seq<char>, from: int) -> Seq<Seq<char>>
    decreases s.len() - from,
{
    if from < 0 || from >= s.len() {
        Seq::empty()
    } else {
        let at = line_break(s, from);
        if at >= s.len() {
            seq![s.subrange(from, s.len() as int)]
        } else if at < from {
            Seq::empty()
        } else {
            seq![without_return(s.subrange(from, at))] + lines_from(s, at + 1)
        }
    }
}

/// The lines of `s`.
pub open spec fn lines(s: Seq<char>) -> Seq<Seq<char>> {
    lines_from(s, 0)
}

/// A first line without the opening of the comment.
pub open spec fn opened(line: Seq<char>) -> Seq<char> {
    strip_start_all(strip_start_all(trim_start(line), "/*"@), "*"@)
}

/// A last line without the closing of the comment.
pub open spec fn closed(line: Seq<char>) -> Seq<char> {
    strip_end_all(strip_end_all(trim_end(line), "*/"@), "*"@)
}

/// A line between the first and the last without the white space and the
/// stars at its start.
pub open spec fn unstarred(line: Seq<char>) -> Seq<char> {
    strip_start_all(trim_start(line), "*"@)
}

/// The line itself if something other than white space stands in it.
pub open spec fn kept(line: Seq<char>) -> Seq<Seq<char>> {
    if trim(line).len() > 0 {
        seq![line]
    } else {
        Seq::empty()
    }
}

/// The documentation that a comment holds; none for a text that, white space
/// aside, does not start with `/*`.
///
/// A comment of one line gives what stands between its opening and its
/// closing. A comment of several lines gives its lines joined by line feeds:
/// the first without the opening, the last without the closing, each of the
/// two only if something other than white space is left of it, and the
/// lines between them without the white space and the stars at their start.
pub open spec fn comment_text(input: Seq<char>) -> Option<Seq<char>> {
    let t = trim(input);
    let ls = lines(t);
    if !(2 <= t.len() && t.subrange(0, 2) == "/*"@) || ls.len() == 0 {
        None
    } else if ls.len() == 1 {
        Some(closed(opened(ls[0])))
    } else {
        Some(
            join(
                kept(opened(ls[0])) + Seq::new(
                    (ls.len() - 2) as nat,
                    |i: int| unstarred(ls[i + 1]),
                ) + kept(closed(ls.last())),
                "\n"@,
            ),
        )
    }
}

/// The documentation of those of the first `n` texts that are comments.
pub open spec fn comment_texts(inputs: Seq<Seq<char>>, n: nat) -> Seq<Seq<char>>
    decreases n,
{
    if n == 0 || n > inputs.len() {
        Seq::empty()
    } else {
        match comment_text(inputs[n - 1]) {
            Some(t) => comment_texts(inputs, (n - 1) as nat).push(t),
            None => comment_texts(inputs, (n - 1) as nat),
        }
    }
}

/// The documentation that a run of comments holds: that of each comment,
/// joined by line feeds; none where no text of the run is a comment.
pub open spec fn docstring_of(inputs: Seq<Seq<char>>) -> Option<Seq<char>> {
    let found = comment_texts(inputs, inputs.len());
    if found.len() == 0 {
        None
    } else {
        Some(join(found, "\n"@))
    }
}

fn trim_start_in(v: &Vec<char>, start: usize, end: usize) -> (r: usize)
    requires
        start <= end <= v@.len(),
    ensures
        start <= r <= end,
        v@.subrange(r as int, end as int) == trim_start(v@.subrange(start as int, end as int)),
{
    let mut i = start;
    while i < end && is_whitespace(v[i])
        invariant
            start <= i <= end <= v@.len(),
            trim_start(v@.subrange(start as int, end as int)) == trim_start(
                v@.subrange(i as int, end as int),
            ),
        decreases end - i,
    {
        assert(v@.subrange(i as int, end as int).drop_first() =~= v@.subrange(i + 1, end as int));
        i += 1;
    }
    i
}

fn trim_end_in(v: &Vec<char>, start: usize, end: usize) -> (r: usize)
    requires
        start <= end <= v@.len(),
    ensures
        start <= r <= end,
        v@.subrange(start as int, r as int) == trim_end(v@.subrange(start as int, end as int)),
{
    let mut i = end;
    while i > start && is_whitespace(v[i - 1])
        invariant
            start <= i <= end <= v@.len(),
            trim_end(v@.subrange(start as int, end as int)) == trim_end(
                v@.subrange(start as int, i as int),
            ),
        decreases i - start,
    {
        assert(v@.subrange(start as int, i as int).drop_last() =~= v@.subrange(
            start as int,
            i - 1,
        ));
        i -= 1;
    }
    i
}

fn matches_at(v: &Vec<char>, at: usize, end: usize, pat: &Vec<char>) -> (r: bool)
    requires
        at <= end <= v@.len(),
    ensures
        r == (pat@.len() <= end - at && v@.subrange(at as int, at + pat@.len()) == pat@),
{
    if pat.len() > end - at {
        return false;
    }
    let mut k: usize = 0;
    while k < pat.len()
        invariant
            k <= pat@.len() <= end - at,
            end <= v@.len(),
            forall|j: int| 0 <= j < k ==> v@[at + j] == pat@[j],
        decreases pat@.len() - k,
    {
        if v[at + k] != pat[k] {
            assert(v@.subrange(at as int, at + pat@.len())[k as int] != pat@[k as int]);
            return false;
        }
        k += 1;
    }
    assert(v@.subrange(at as int, at + pat@.len()) =~= pat@);
    true
}

fn strip_start_in(v: &Vec<char>, start: usize, end: usize, pat: &Vec<char>) -> (r: usize)
    requires
        start <= end <= v@.len(),
    ensures
        start <= r <= end,
        v@.subrange(r as int, end as int) == strip_start_all(
            v@.subrange(start as int, end as int),
            pat@,
        ),
{
    let mut i = start;
    if pat.len() == 0 {
        return i;
    }
    while matches_at(v, i, end, pat)
        invariant
            pat@.len() > 0,
            start <= i <= end <= v@.len(),
            strip_start_all(v@.subrange(start as int, end as int), pat@) == strip_start_all(
                v@.subrange(i as int, end as int),
                pat@,
            ),
        decreases end - i,
    {
        assert(v@.subrange(i as int, end as int).subrange(0, pat@.len() as int) =~= v@.subrange(
            i as int,
            i + pat@.len(),
        ));
        assert(v@.subrange(i as int, end as int).skip(pat@.len() as int) =~= v@.subrange(
            i + pat@.len(),
            end as int,
        ));
        i += pat.len();
    }
    proof {
        let s = v@.subrange(i as int, end as int);
        if pat@.len() <= s.len() {
            assert(s.subrange(0, pat@.len() as int) =~= v@.subrange(i as int, i + pat@.len()));
        }
    }
    i
}

fn strip_end_in(v: &Vec<char>, start: usize, end: usize, pat: &Vec<char>) -> (r: usize)
    requires
        start <= end <= v@.len(),
    ensures
        start <= r <= end,
        v@.subrange(start as int, r as int) == strip_end_all(
            v@.subrange(start as int, end as int),
            pat@,
        ),
{
    let mut i = end;
    if pat.len() == 0 {
        return i;
    }
    while i - start >= pat.len() && matches_at(v, i - pat.len(), i, pat)
        invariant
            pat@.len() > 0,
            start <= i <= end <= v@.len(),
            strip_end_all(v@.subrange(start as int, end as int), pat@) == strip_end_all(
                v@.subrange(start as int, i as int),
                pat@,
            ),
        decreases i - start,
    {
        let ghost s = v@.subrange(start as int, i as int);
        assert(s.subrange(s.len() - pat@.len(), s.len() as int) =~= v@.subrange(
            i - pat@.len(),
            i as int,
        ));
        assert(s.take(s.len() - pat@.len()) =~= v@.subrange(start as int, i - pat@.len()));
        i -= pat.len();
    }
    proof {
        let s = v@.subrange(start as int, i as int);
        if pat@.len() <= s.len() {
            assert(s.subrange(s.len() - pat@.len(), s.len() as int) =~= v@.subrange(
                i - pat@.len(),
                i as int,
            ));
        }
    }
    i
}

/// The ranges of `v[start..end]` that are its lines.
fn line_ranges(v: &Vec<char>, start: usize, end: usize) -> (r: Vec<(usize, usize)>)
    requires
        start <= end <= v@.len(),
    ensures
        r@.len() == lines(v@.subrange(start as int, end as int)).len(),
        forall|k: int|
            0 <= k < r@.len() ==> start <= (#[trigger] r@[k]).0 <= r@[k].1 <= end && v@.subrange(
                r@[k].0 as int,
                r@[k].1 as int,
            ) == lines(v@.subrange(start as int, end as int))[k],
{
    let ghost s = v@.subrange(start as int, end as int);
    let mut out: Vec<(usize, usize)> = Vec::new();
    let mut from = start;
    while from < end
        invariant
            start <= from <= end <= v@.len(),
            s == v@.subrange(start as int, end as int),
            lines(s).len() == out@.len() + lines_from(s, from - start).len(),
            forall|k: int|
                0 <= k < out@.len() ==> start <= (#[trigger] out@[k]).0 <= out@[k].1 <= end
                    && v@.subrange(out@[k].0 as int, out@[k].1 as int) == lines(s)[k],
            forall|k: int|
                0 <= k < lines_from(s, from - start).len() ==> lines(s)[out@.len() + k]
                    == #[trigger] lines_from(s, from - start)[k],
        decreases end - from,
    {
        let mut at = from;
        while at < end && v[at] != '\n'
            invariant
                from <= at <= end <= v@.len(),
                start <= from,
                s == v@.subrange(start as int, end as int),
                line_break(s, from - start) == line_break(s, at - start),
            decreases end - at,
        {
            at += 1;
        }
        let ghost rest = lines_from(s, from - start);
        assert(line_break(s, from - start) == at - start);
        if at >= end {
            assert(rest =~= seq![s.subrange(from - start, s.len() as int)]);
            assert(s.subrange(from - start, s.len() as int) =~= v@.subrange(
                from as int,
                end as int,
            ));
            assert(lines(s)[out@.len() as int + 0] == rest[0]);
            out.push((from, end));
            from = end;
            assert(lines_from(s, from - start) =~= Seq::empty());
        } else {
            let line_end = if at > from && v[at - 1] == '\r' {
                at - 1
            } else {
                at
            };
            assert(rest =~= seq![without_return(s.subrange(from - start, at - start))]
                + lines_from(s, at + 1 - start));
            assert(s.subrange(from - start, at - start) =~= v@.subrange(from as int, at as int));
            assert(v@.subrange(from as int, line_end as int) =~= without_return(
                v@.subrange(from as int, at as int),
            ));
            assert(lines(s)[out@.len() as int + 0] == rest[0]);
            assert forall|k: int| 0 <= k < lines_from(s, at + 1 - start).len() implies lines(
                s,
            )[out@.len() + 1 + k] == #[trigger] lines_from(s, at + 1 - start)[k] by {
                assert(rest[k + 1] == lines_from(s, at + 1 - start)[k]);
                assert(lines(s)[out@.len() + (k + 1)] == rest[k + 1]);
            }
            out.push((from, line_end));
            from = at + 1;
        }
    }
    assert(lines_from(s, from - start) =~= Seq::empty());
    out
}

fn copy_range(v: &Vec<char>, start: usize, end: usize) -> (r: Vec<char>)
    requires
        start <= end <= v@.len(),
    ensures
        r@ == v@.subrange(start as int, end as int),
{
    let mut out: Vec<char> = Vec::new();
    let mut i = start;
    while i < end
        invariant
            start <= i <= end <= v@.len(),
            out@ == v@.subrange(start as int, i as int),
        decreases end - i,
    {
        out.push(v[i]);
        assert(out@ =~= v@.subrange(start as int, i + 1));
        i += 1;
    }
    out
}

/// The first line of a comment without its opening.
fn open_line(v: &Vec<char>, start: usize, end: usize) -> (r: usize)
    requires
        start <= end <= v@.len(),
    ensures
        start <= r <= end,
        v@.subrange(r as int, end as int) == opened(v@.subrange(start as int, end as int)),
{
    let slash_star = chars_of("/*");
    let star = chars_of("*");
    let a = trim_start_in(v, start, end);
    let b = strip_start_in(v, a, end, &slash_star);
    strip_start_in(v, b, end, &star)
}

/// The last line of a comment without its closing.
fn close_line(v: &Vec<char>, start: usize, end: usize) -> (r: usize)
    requires
        start <= end <= v@.len(),
    ensures
        start <= r <= end,
        v@.subrange(start as int, r as int) == closed(v@.subrange(start as int, end as int)),
{
    let star_slash = chars_of("*/");
    let star = chars_of("*");
    let a = trim_end_in(v, start, end);
    let b = strip_end_in(v, start, a, &star_slash);
    strip_end_in(v, start, b, &star)
}

fn is_blank(v: &Vec<char>, start: usize, end: usize) -> (r: bool)
    requires
        start <= end <= v@.len(),
    ensures
        r == (trim(v@.subrange(start as int, end as int)).len() == 0),
{
    let a = trim_start_in(v, start, end);
    let b = trim_end_in(v, a, end);
    b == a
}

/// The documentation that a comment holds.
pub fn parse_multiline_comment(input: String) -> (r: Option<String>)
    ensures
        crate::utils::text::opt_text(r) == comment_text(input@),
{
    let v = chars_of(input.as_str());
    let slash_star = chars_of("/*");
    let star = chars_of("*");
    let a = trim_start_in(&v, 0, v.len());
    let b = trim_end_in(&v, a, v.len());
    assert(v@.subrange(0, v@.len() as int) =~= v@);
    let ghost t = v@.subrange(a as int, b as int);
    assert(t == trim(input@));
    assert(slash_star@.len() == 2) by {
        reveal_strlit("/*");
    }
    if !matches_at(&v, a, b, &slash_star) {
        proof {
            if 2 <= t.len() {
                assert(t.subrange(0, 2) =~= v@.subrange(a as int, a + 2));
            }
        }
        return None;
    }
    proof {
        assert(t.subrange(0, 2) =~= v@.subrange(a as int, a + 2));
    }
    let ranges = line_ranges(&v, a, b);
    let n = ranges.len();
    if n == 0 {
        return None;
    }
    let ghost ls = lines(t);
    let (first_start, first_end) = ranges[0];
    let opened_at = open_line(&v, first_start, first_end);
    if n == 1 {
        let closed_at = close_line(&v, opened_at, first_end);
        let text = copy_range(&v, opened_at, closed_at);
        return Some(string_of(&text));
    }
    let mut result: Vec<String> = Vec::new();
    if !is_blank(&v, opened_at, first_end) {
        let text = copy_range(&v, opened_at, first_end);
        result.push(string_of(&text));
    }
    assert(texts(result@) =~= kept(opened(ls[0])));
    let ghost middle = Seq::new((ls.len() - 2) as nat, |i: int| unstarred(ls[i + 1]));
    let mut i: usize = 1;
    assert(texts(result@) =~= kept(opened(ls[0])) + middle.take(0));
    while i < n - 1
        invariant
            1 <= i <= n - 1,
            star@ == "*"@,
            n == ranges@.len(),
            n == ls.len(),
            ls == lines(t),
            t == v@.subrange(a as int, b as int),
            a <= b <= v@.len(),
            middle == Seq::new((ls.len() - 2) as nat, |i: int| unstarred(ls[i + 1])),
            forall|k: int|
                0 <= k < ranges@.len() ==> a <= (#[trigger] ranges@[k]).0 <= ranges@[k].1 <= b
                    && v@.subrange(ranges@[k].0 as int, ranges@[k].1 as int) == ls[k],
            texts(result@) == kept(opened(ls[0])) + middle.take(i - 1),
        decreases n - i,
    {
        let (line_start, line_end) = ranges[i];
        let c = trim_start_in(&v, line_start, line_end);
        let d = strip_start_in(&v, c, line_end, &star);
        let text = copy_range(&v, d, line_end);
        let ghost before = texts(result@);
        result.push(string_of(&text));
        proof {
            assert(text@ == middle[i - 1]);
            assert(middle.take(i as int) =~= middle.take(i - 1).push(middle[i - 1]));
            assert(texts(result@) =~= before.push(text@));
        }
        i += 1;
    }
    assert(middle.take(n - 2) =~= middle);
    let (last_start, last_end) = ranges[n - 1];
    let closed_at = close_line(&v, last_start, last_end);
    let ghost before = texts(result@);
    if !is_blank(&v, last_start, closed_at) {
        let text = copy_range(&v, last_start, closed_at);
        result.push(string_of(&text));
        assert(texts(result@) =~= before.push(text@));
    }
    assert(ls.last() == ls[n - 1]);
    assert(texts(result@) =~= kept(opened(ls[0])) + middle + kept(closed(ls.last())));
    Some(crate::utils::text::join_texts(&result, "\n"))
}

/// The documentation that a run of comments holds.
pub fn parse_docstrings(inputs: Vec<String>) -> (r: Option<String>)
    ensures
        crate::utils::text::opt_text(r) == docstring_of(texts(inputs@)),
{
    let mut results: Vec<String> = Vec::new();
    let mut i: usize = 0;
    assert(texts(results@) =~= Seq::empty());
    while i < inputs.len()
        invariant
            i <= inputs@.len(),
            texts(results@) == comment_texts(texts(inputs@), i as nat),
        decreases inputs@.len() - i,
    {
        let ghost before = texts(results@);
        match parse_multiline_comment(inputs[i].clone()) {
            Some(text) => {
                results.push(text);
                assert(texts(results@) =~= before.push(text@));
            },
            None => {},
        }
        i += 1;
    }
    if results.len() == 0 {
        None
    } else {
        Some(crate::utils::text::join_texts(&results, "\n"))
    }
}

} // verus!
