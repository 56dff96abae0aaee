//! The `.env` parser: line classification, the table a file denotes, and
//! the single-pass scanner that builds it.

use vstd::prelude::*;

use crate::error::EnvroError;
use crate::text::{
    escape, find_first, is_ws_char, lemma_escape_round_trip, lemma_find_first, lemma_trim_back_at,
    lemma_trim_front_at, trimmed, unescape, chars_to_string, str_to_chars,
};
use crate::vars::EnvroVars;

verus! {

/// The lines of the input, split on newline characters. A trailing newline
/// yields a final empty line, which is skipped.
pub open spec fn split_lines(s: Seq<char>) -> Seq<Seq<char>>
    decreases s.len(),
    via split_lines_decreases
{
    let i = find_first(s, '\n');
    if i < s.len() {
        seq![s.take(i)] + split_lines(s.skip(i + 1))
    } else {
        seq![s]
    }
}

#[via_fn]
proof fn split_lines_decreases(s: Seq<char>) {
    lemma_find_first(s, '\n');
}

/// The line is blank after trimming, or its first character is `#`: it is
/// skipped and contributes nothing.
pub open spec fn line_skipped(raw: Seq<char>) -> bool {
    trimmed(raw).len() == 0 || trimmed(raw)[0] == '#'
}

/// What follows the first `=` of the trimmed line, before unquoting.
pub open spec fn raw_value(raw: Seq<char>) -> Seq<char> {
    let t = trimmed(raw);
    t.skip(find_first(t, '=') + 1)
}

/// The raw value opens with a quote.
pub open spec fn quoted(v: Seq<char>) -> bool {
    v.len() > 0 && v[0] == '"'
}

/// The line is a valid declaration: it holds a `=`, the key before the
/// first `=` is non-empty, the raw value after it is non-empty, and a raw
/// value that opens with a quote also closes with a matching one.
pub open spec fn line_valid(raw: Seq<char>) -> bool {
    let t = trimmed(raw);
    let i = find_first(t, '=');
    &&& i < t.len()
    &&& 0 < i
    &&& i + 1 < t.len()
    &&& (quoted(raw_value(raw)) ==> raw_value(raw).len() >= 2 && raw_value(raw).last() == '"')
}

/// The line is skipped or is a valid declaration.
pub open spec fn line_ok(raw: Seq<char>) -> bool {
    line_skipped(raw) || line_valid(raw)
}

/// The key of a declaration: what precedes the first `=` of the trimmed
/// line.
pub open spec fn line_key(raw: Seq<char>) -> Seq<char> {
    let t = trimmed(raw);
    t.take(find_first(t, '='))
}

/// The value of a declaration: the raw value taken verbatim, or, when it
/// is quoted, the content between the outer quotes with every `\"`
/// unescaped.
pub open spec fn line_value(raw: Seq<char>) -> Seq<char> {
    let v = raw_value(raw);
    if quoted(v) {
        unescape(v.subrange(1, v.len() - 1))
    } else {
        v
    }
}

/// The table that the first `n` lines denote: each declaration inserted in
/// order, so a later declaration of a key overrides an earlier one.
pub open spec fn table_upto(lines: Seq<Seq<char>>, n: int) -> Map<Seq<char>, Seq<char>>
    decreases n,
{
    if n <= 0 {
        Map::empty()
    } else {
        let m = table_upto(lines, n - 1);
        let l = lines[n - 1];
        if line_skipped(l) {
            m
        } else {
            m.insert(line_key(l), line_value(l))
        }
    }
}

/// The table that the whole input denotes.
pub open spec fn env_table(content: Seq<char>) -> Map<Seq<char>, Seq<char>> {
    table_upto(split_lines(content), split_lines(content).len() as int)
}

/// Every line of the input is skipped or valid.
pub open spec fn all_lines_ok(content: Seq<char>) -> bool {
    forall|i: int|
        0 <= i < split_lines(content).len() ==> line_ok(#[trigger] split_lines(content)[i])
}

/// A value written for a quoted position: wrapped in quotes, with every
/// inner quote escaped as `\"`.
pub open spec fn quote_escape(v: Seq<char>) -> Seq<char> {
    seq!['"'] + escape(v) + seq!['"']
}

/// Round trip: a value written by quoting and escaping is accepted as a
/// raw value and parses back to the original literal.
pub proof fn lemma_quote_round_trip(v: Seq<char>)
    ensures
        quoted(quote_escape(v)),
        quote_escape(v).len() >= 2,
        quote_escape(v).last() == '"',
        unescape(quote_escape(v).subrange(1, quote_escape(v).len() - 1)) == v,
{
    lemma_escape_round_trip(v);
    assert(quote_escape(v).subrange(1, quote_escape(v).len() - 1) =~= escape(v));
}

/// A line whose raw value was written by quoting and escaping parses back
/// to the original literal.
pub proof fn lemma_quoted_value_parses_back(raw: Seq<char>, v: Seq<char>)
    requires
        raw_value(raw) == quote_escape(v),
    ensures
        line_value(raw) == v,
{
    lemma_quote_round_trip(v);
}

/// Later duplicates overwrite earlier ones: when line `j` yields an entry
/// and no later line among the first `n` yields one with the same key, the
/// table of the first `n` lines maps that key to line `j`'s value.
pub proof fn lemma_last_write_wins(lines: Seq<Seq<char>>, n: int, j: int)
    requires
        0 <= j < n <= lines.len(),
        !line_skipped(lines[j]),
        forall|i: int|
            j < i < n && !line_skipped(#[trigger] lines[i]) ==> line_key(lines[i]) != line_key(
                lines[j],
            ),
    ensures
        table_upto(lines, n).dom().contains(line_key(lines[j])),
        table_upto(lines, n)[line_key(lines[j])] == line_value(lines[j]),
    decreases n,
{
    if j < n - 1 {
        lemma_last_write_wins(lines, n - 1, j);
    }
}

/// Exactly one entry per key: the table of the first `n` lines holds a key
/// iff some line among them yields an entry with it.
pub proof fn lemma_table_dom(lines: Seq<Seq<char>>, n: int, k: Seq<char>)
    requires
        0 <= n <= lines.len(),
    ensures
        table_upto(lines, n).dom().contains(k) <==> exists|i: int|
            0 <= i < n && !line_skipped(#[trigger] lines[i]) && line_key(lines[i]) == k,
    decreases n,
{
    if n > 0 {
        lemma_table_dom(lines, n - 1, k);
        if table_upto(lines, n).dom().contains(k) {
            if !(!line_skipped(lines[n - 1]) && line_key(lines[n - 1]) == k) {
                let i = choose|i: int|
                    0 <= i < n - 1 && !line_skipped(#[trigger] lines[i]) && line_key(lines[i])
                        == k;
                assert(0 <= i < n && !line_skipped(lines[i]) && line_key(lines[i]) == k);
            }
        }
        if exists|i: int| 0 <= i < n && !line_skipped(#[trigger] lines[i]) && line_key(lines[i])
            == k {
            let i = choose|i: int|
                0 <= i < n && !line_skipped(#[trigger] lines[i]) && line_key(lines[i]) == k;
            if i < n - 1 {
                assert(exists|i: int|
                    0 <= i < n - 1 && !line_skipped(#[trigger] lines[i]) && line_key(lines[i])
                        == k);
            }
        }
    }
}

/// A blank line or a full-line comment is never an error and never
/// produces an entry: the table is unchanged by it.
pub proof fn lemma_skipped_line_inert(lines: Seq<Seq<char>>, i: int)
    requires
        0 <= i < lines.len(),
        line_skipped(lines[i]),
    ensures
        line_ok(lines[i]),
        table_upto(lines, i + 1) == table_upto(lines, i),
{
}

enum LineResult {
    Skip,
    Pair(Vec<char>, Vec<char>),
    Bad(Vec<char>),
}

/// Copies the characters of `v` between `from` and `to`.
fn copy_range(v: &Vec<char>, from: usize, to: usize) -> (r: Vec<char>)
    requires
        from <= to <= v.len(),
    ensures
        r@ == v@.subrange(from as int, to as int),
{
    let mut out: Vec<char> = Vec::new();
    proof {
        assert(out@ =~= v@.subrange(from as int, from as int));
    }
    let mut k: usize = from;
    while k < to
        invariant
            from <= k <= to <= v.len(),
            out@ == v@.subrange(from as int, k as int),
        decreases to - k,
    {
        out.push(v[k]);
        proof {
            assert(v@.subrange(from as int, k as int).push(v@[k as int]) =~= v@.subrange(
                from as int,
                k as int + 1,
            ));
        }
        k = k + 1;
    }
    out
}

/// Removes surrounding whitespace.
fn trim_chars(line: &Vec<char>) -> (t: Vec<char>)
    ensures
        t@ == trimmed(line@),
{
    let n = line.len();
    let mut lo: usize = 0;
    while lo < n && is_ws_char(line[lo])
        invariant
            lo <= n,
            n == line.len(),
            forall|j: int| 0 <= j < lo ==> crate::text::is_ws(line@[j]),
        decreases n - lo,
    {
        lo = lo + 1;
    }
    proof {
        lemma_trim_front_at(line@, lo as int);
    }
    if lo == n {
        proof {
            assert(line@.skip(n as int) =~= Seq::<char>::empty());
        }
        let out: Vec<char> = Vec::new();
        proof {
            assert(out@ =~= trimmed(line@));
        }
        return out;
    }
    let mut hi: usize = n;
    while is_ws_char(line[hi - 1])
        invariant
            lo < hi <= n,
            n == line.len(),
            !crate::text::is_ws(line@[lo as int]),
            forall|j: int| hi <= j < n ==> crate::text::is_ws(line@[j]),
        decreases hi,
    {
        hi = hi - 1;
    }
    proof {
        let front = line@.skip(lo as int);
        lemma_trim_back_at(front, hi - lo as int);
        assert(front.take(hi - lo as int) =~= line@.subrange(lo as int, hi as int));
    }
    copy_range(line, lo, hi)
}

/// Replaces every `\"` by `"`, scanning left to right.
fn unescape_chars(s: &Vec<char>) -> (out: Vec<char>)
    ensures
        out@ == unescape(s@),
{
    let n = s.len();
    let mut out: Vec<char> = Vec::new();
    let mut i: usize = 0;
    proof {
        assert(s@.skip(0) =~= s@);
        assert(out@ + unescape(s@) =~= unescape(s@));
    }
    while i < n
        invariant
            i <= n,
            n == s.len(),
            unescape(s@) == out@ + unescape(s@.skip(i as int)),
        decreases n - i,
    {
        let ghost prev = out@;
        if s[i] == '\\' && i + 1 < n && s[i + 1] == '"' {
            out.push('"');
            proof {
                let rest = s@.skip(i as int);
                assert(rest.len() >= 2 && rest[0] == '\\' && rest[1] == '"');
                assert(rest.skip(2) =~= s@.skip(i as int + 2));
                assert(prev + (seq!['"'] + unescape(s@.skip(i as int + 2))) =~= out@ + unescape(
                    s@.skip(i as int + 2),
                ));
            }
            i = i + 2;
        } else {
            out.push(s[i]);
            proof {
                let rest = s@.skip(i as int);
                assert(rest[0] == s@[i as int]);
                assert(rest.drop_first() =~= s@.skip(i as int + 1));
                assert(prev + (seq![s@[i as int]] + unescape(s@.skip(i as int + 1))) =~= out@
                    + unescape(s@.skip(i as int + 1)));
            }
            i = i + 1;
        }
    }
    proof {
        assert(s@.skip(n as int) =~= Seq::<char>::empty());
        assert(out@ =~= unescape(s@));
    }
    out
}

/// Classifies one line: skipped, a (key, value) declaration, or invalid;
/// an invalid line is handed back trimmed, for the error report.
fn parse_line(line: &Vec<char>) -> (r: LineResult)
    ensures
        match r {
            LineResult::Skip => line_skipped(line@),
            LineResult::Pair(k, v) => !line_skipped(line@) && line_valid(line@) && k@ == line_key(
                line@,
            ) && v@ == line_value(line@),
            LineResult::Bad(t) => !line_skipped(line@) && !line_valid(line@) && t@ == trimmed(
                line@,
            ),
        },
{
    let t = trim_chars(line);
    let n = t.len();
    if n == 0 {
        return LineResult::Skip;
    }
    if t[0] == '#' {
        return LineResult::Skip;
    }
    let mut i: usize = 0;
    while i < n && t[i] != '='
        invariant
            i <= n,
            n == t.len(),
            forall|j: int| 0 <= j < i ==> t@[j] != '=',
        decreases n - i,
    {
        i = i + 1;
    }
    proof {
        lemma_find_first(t@, '=');
        let f = find_first(t@, '=');
        if i < n {
            if f < i {
                assert(t@[f] == '=');
                assert(false);
            }
            if f > i {
                assert(t@[i as int] != '=');
                assert(false);
            }
        } else {
            if f < n {
                assert(t@[f] == '=');
                assert(false);
            }
        }
        assert(f == i);
    }
    if i == n {
        return LineResult::Bad(t);
    }
    if i == 0 {
        return LineResult::Bad(t);
    }
    if i + 1 == n {
        return LineResult::Bad(t);
    }
    let rawval = copy_range(&t, i + 1, n);
    proof {
        assert(rawval@ =~= raw_value(line@));
    }
    let key = copy_range(&t, 0, i);
    proof {
        assert(key@ =~= line_key(line@));
    }
    if rawval[0] == '"' {
        let m = rawval.len();
        if m < 2 {
            return LineResult::Bad(t);
        }
        if rawval[m - 1] != '"' {
            return LineResult::Bad(t);
        }
        let inner = copy_range(&rawval, 1, m - 1);
        proof {
            assert(inner@ =~= raw_value(line@).subrange(1, raw_value(line@).len() - 1));
        }
        let value = unescape_chars(&inner);
        return LineResult::Pair(key, value);
    }
    LineResult::Pair(key, rawval)
}

/// Parses the content of a `.env` file.
///
/// On success the result is exactly the table the lines denote: one entry
/// per declaration, a later declaration of a key overriding an earlier
/// one, blank lines and full-line comments skipped. On the first line that
/// is neither skipped nor a valid declaration, the whole parse fails with
/// `EnvroError::Parse` carrying that line, trimmed; no partial table is
/// returned.
pub fn parse(content: &str) -> (r: Result<EnvroVars, EnvroError>)
    ensures
        match r {
            Ok(vars) => all_lines_ok(content@) && vars@ == env_table(content@),
            Err(e) => {
                &&& !all_lines_ok(content@)
                &&& e matches EnvroError::Parse { line }
                &&& exists|b: int|
                    {
                        &&& 0 <= b < split_lines(content@).len()
                        &&& !line_ok(split_lines(content@)[b])
                        &&& forall|i: int|
                            0 <= i < b ==> line_ok(#[trigger] split_lines(content@)[i])
                        &&& line@ == trimmed(split_lines(content@)[b])
                    }
            },
        },
{
    let chars = str_to_chars(content);
    let n = chars.len();
    let ghost lines = split_lines(content@);
    let mut vars = EnvroVars::new();
    let ghost mut j: int = 0;
    let mut start: usize = 0;
    let mut done = false;
    proof {
        assert(content@.skip(0) =~= content@);
        assert(lines.skip(0) =~= lines);
    }
    while !done
        invariant
            chars@ == content@,
            n == chars.len(),
            lines == split_lines(content@),
            start <= n,
            0 <= j <= lines.len(),
            !done ==> lines.skip(j) == split_lines(content@.skip(start as int)),
            done ==> j == lines.len(),
            forall|i: int| 0 <= i < j ==> line_ok(#[trigger] lines[i]),
            vars@ == table_upto(lines, j),
        decreases n - start + (if done {
            0int
        } else {
            1int
        }),
    {
        let mut end: usize = start;
        while end < n && chars[end] != '\n'
            invariant
                start <= end <= n,
                n == chars.len(),
                chars@ == content@,
                forall|k: int| start <= k < end ==> content@[k] != '\n',
            decreases n - end,
        {
            end = end + 1;
        }
        let ghost rest = content@.skip(start as int);
        proof {
            lemma_find_first(rest, '\n');
            let f = find_first(rest, '\n');
            assert forall|k: int| 0 <= k < end - start implies rest[k] != '\n' by {
                assert(rest[k] == content@[k + start]);
            }
            if end < n {
                assert(rest[end - start] == content@[end as int]);
                if f < end - start {
                    assert(rest[f] == '\n');
                    assert(false);
                }
                if f > end - start {
                    assert(rest[end - start] != '\n');
                    assert(false);
                }
            } else {
                if f < rest.len() {
                    assert(rest[f] == '\n');
                    assert(false);
                }
            }
            assert(f == end - start);
            assert(lines.skip(j).len() >= 1);
            assert(j < lines.len());
        }
        let line = copy_range(&chars, start, end);
        proof {
            if end < n {
                assert(split_lines(rest) == seq![rest.take(end - start)] + split_lines(
                    rest.skip(end - start + 1),
                ));
            } else {
                assert(split_lines(rest) == seq![rest]);
                assert(rest.take(end - start) =~= rest);
            }
            assert(rest.take(end - start) =~= content@.subrange(start as int, end as int));
            assert(lines[j] == lines.skip(j)[0]);
            assert(lines[j] == line@);
        }
        match parse_line(&line) {
            LineResult::Skip => {
                proof {
                    assert(table_upto(lines, j + 1) == table_upto(lines, j));
                    j = j + 1;
                }
            },
            LineResult::Pair(key, value) => {
                let k = chars_to_string(&key);
                let v = chars_to_string(&value);
                vars.insert(k, v);
                proof {
                    assert(table_upto(lines, j + 1) == table_upto(lines, j).insert(
                        line_key(lines[j]),
                        line_value(lines[j]),
                    ));
                    j = j + 1;
                }
            },
            LineResult::Bad(t) => {
                let bad = chars_to_string(&t);
                proof {
                    let b = j;
                    assert(0 <= b < lines.len() && !line_ok(lines[b]));
                }
                return Err(EnvroError::Parse { line: bad });
            },
        }
        if end == n {
            proof {
                assert(lines.skip(j - 1) =~= seq![rest]);
                assert(lines.len() - (j - 1) == 1);
            }
            done = true;
        } else {
            proof {
                assert(lines.skip(j) =~= lines.skip(j - 1).skip(1));
                assert((seq![rest.take(end - start)] + split_lines(rest.skip(end - start + 1))).skip(
                    1,
                ) =~= split_lines(rest.skip(end - start + 1)));
                assert(rest.skip(end - start + 1) =~= content@.skip(end as int + 1));
            }
            start = end + 1;
        }
    }
    proof {
        assert(j == lines.len());
    }
    Ok(vars)
}

} // verus!
