//! What a rendered diagnostic shows: the line that it is on, and what is marked under it.

use vstd::prelude::*;
use crate::diagnostics::DiagnosticView;
use crate::diagnostics::Severity;
use crate::diagnostics::Span;
use crate::diagnostics::byte_offset;
use crate::diagnostics::ceiling;
use crate::diagnostics::end_location_spec;
use crate::diagnostics::ends_line_spec;
use crate::diagnostics::lemma_ceiling;
use crate::diagnostics::lemma_offset_mono;
use crate::diagnostics::line_end;
use crate::diagnostics::line_start;
use crate::diagnostics::location_spec;
use crate::diagnostics::render_spec;
use crate::diagnostics::snippet_spec;
use crate::diagnostics::through_spec;
use crate::diagnostics::walk_to;
use crate::text::decimal;

verus! {

/// Whether a span covers the characters from `k` up to `n` of a source.
pub open spec fn covers(s: Seq<char>, span: Span, k: int, n: int) -> bool {
    &&& 0 <= k <= n <= s.len()
    &&& span.offset == byte_offset(s, k)
    &&& span.offset + span.len == byte_offset(s, n)
    &&& span.offset + span.len <= usize::MAX
}

proof fn lemma_seek(s: Seq<char>, k: int)
    requires
        0 <= k <= s.len(),
    ensures
        ceiling(s, byte_offset(s, k) as int, 0) == k,
{
    lemma_ceiling(s, byte_offset(s, k) as int, 0);
    let at = ceiling(s, byte_offset(s, k) as int, 0);
    if at < k {
        lemma_offset_mono(s, at, k);
    } else if at > k {
        assert(byte_offset(s, k) < byte_offset(s, k) as int);
    }
}

proof fn lemma_line_start(s: Seq<char>, at: int)
    requires
        0 <= at <= s.len(),
    ensures
        0 <= line_start(s, at) <= at,
        line_start(s, at) == 0 || s[line_start(s, at) - 1] == '\n' || s[line_start(s, at) - 1] == '\r',
        forall|i: int| line_start(s, at) <= i < at ==> #[trigger] s[i] != '\n' && s[i] != '\r',
    decreases at,
{
    if at > 0 && s[at - 1] != '\n' && s[at - 1] != '\r' {
        lemma_line_start(s, at - 1);
    }
}

proof fn lemma_line_end(s: Seq<char>, at: int)
    requires
        0 <= at <= s.len(),
    ensures
        at <= line_end(s, at) <= s.len(),
        line_end(s, at) == s.len() || s[line_end(s, at)] == '\n' || s[line_end(s, at)] == '\r',
        forall|i: int| at <= i < line_end(s, at) ==> #[trigger] s[i] != '\n' && s[i] != '\r',
    decreases s.len() - at,
{
    if at < s.len() && s[at] != '\n' && s[at] != '\r' {
        lemma_line_end(s, at + 1);
    }
}

/// Whether the characters from `a` up to `b` are a whole line.
pub open spec fn is_line(s: Seq<char>, a: int, b: int) -> bool {
    &&& 0 <= a <= b <= s.len()
    &&& a == 0 || s[a - 1] == '\n' || s[a - 1] == '\r'
    &&& b == s.len() || s[b] == '\n' || s[b] == '\r'
    &&& forall|i: int| a <= i < b ==> #[trigger] s[i] != '\n' && s[i] != '\r'
}

/// Two whole lines that hold one character are the same line.
proof fn lemma_one_line(s: Seq<char>, a: int, b: int, c: int, d: int, k: int)
    requires
        is_line(s, a, b),
        is_line(s, c, d),
        a <= k <= b,
        c <= k <= d,
    ensures
        a == c,
        b == d,
{
    if a < c {
        assert(s[c - 1] != '\n' && s[c - 1] != '\r');
    } else if c < a {
        assert(s[a - 1] != '\n' && s[a - 1] != '\r');
    }
    if b < d {
        assert(s[b] != '\n' && s[b] != '\r');
    } else if d < b {
        assert(s[d] != '\n' && s[d] != '\r');
    }
}

/// A span that is not empty is shown by the whole line that it starts on, and under it a caret, or a tab under a tab,
/// for each of its characters on that line and for no other: the first stands below the span's column.
pub proof fn law_snippet(s: Seq<char>, span: Span, k: int, n: int, a: int, b: int)
    requires
        covers(s, span, k, n),
        k < n,
        is_line(s, a, b),
        a <= k < b,
        span.column >= 1,
    ensures
        snippet_spec(s, span) matches Some((line, marker)) && line == (if a == 0 && s.len() > 0 && s[0] == '\u{feff}' {
            s.subrange(1, b)
        } else {
            s.subrange(a, b)
        }) && marker.len() == span.column - 1 + (if n < b { n - k } else { b - k }) && (forall|i: int|
            0 <= i < span.column - 1 ==> #[trigger] marker[i] == (if i < line.len() && line[i] == '\t' { '\t' } else { ' ' }))
            && forall|i: int|
            span.column - 1 <= i < marker.len() ==> #[trigger] marker[i] == (if s[k + (i - (span.column - 1))] == '\t' {
                '\t'
            } else {
                '^'
            }),
{
    lemma_seek(s, k);
    lemma_seek(s, n);
    lemma_offset_mono(s, n, s.len() as int);
    lemma_offset_mono(s, k, n);
    lemma_line_start(s, k);
    let start = line_start(s, k);
    lemma_line_end(s, start);
    let end = line_end(s, start);
    assert(is_line(s, start, end));
    if end < k {
        assert(s[end] != '\n' && s[end] != '\r');
    }
    lemma_one_line(s, start, end, a, b, k);
    assert(span.len > 0);
    if let Some((line, marker)) = snippet_spec(s, span) {
        let stop = if n < b { n } else { b };
        let marked = s.subrange(k, stop);
        if a == 0 {
            assert(s.subrange(a, b).subrange(1, b) =~= s.subrange(1, b));
        }
        assert forall|i: int| span.column - 1 <= i < marker.len() implies #[trigger] marker[i] == (if s[k + (i - (span.column
            - 1))] == '\t' {
            '\t'
        } else {
            '^'
        }) by {
            assert(marked[i - (span.column - 1)] == s[k + (i - (span.column - 1))]);
        }
    }
}

proof fn lemma_walk_plain(s: Seq<char>, from: int, to: int, line: int, column: int)
    requires
        0 <= from <= to <= s.len(),
        column + (to - from) <= usize::MAX,
        forall|i: int| from <= i < to ==> !ends_line_spec(s, i),
    ensures
        walk_to(s, from, to, line, column) == (line, column + (to - from)),
    decreases to - from,
{
    if from < to {
        assert(!ends_line_spec(s, from));
        lemma_walk_plain(s, from + 1, to, line, column + 1);
    }
}

proof fn lemma_walk_over(s: Seq<char>, from: int, mid: int, to: int, line: int, column: int)
    requires
        0 <= from <= mid <= to <= s.len(),
    ensures
        walk_to(s, from, to, line, column) == walk_to(
            s,
            mid,
            to,
            walk_to(s, from, mid, line, column).0,
            walk_to(s, from, mid, line, column).1,
        ),
    decreases mid - from,
{
    if from < mid {
        if ends_line_spec(s, from) {
            lemma_walk_over(s, from + 1, mid, to, if line >= usize::MAX { usize::MAX as int } else { line + 1 }, 1);
        } else {
            lemma_walk_over(s, from + 1, mid, to, line, if column >= usize::MAX { usize::MAX as int } else { column + 1 });
        }
    }
}

/// A span that no line ends in ends on its own line, as many columns further on as it has characters.
pub proof fn law_end_on_one_line(s: Seq<char>, span: Span, k: int, n: int)
    requires
        covers(s, span, k, n),
        span.column + (n - k) <= usize::MAX,
        forall|i: int| k <= i < n ==> #[trigger] s[i] != '\n' && s[i] != '\r',
    ensures
        end_location_spec(s, span) == Some((span.line as int, span.column + (n - k))),
{
    lemma_seek(s, k);
    lemma_seek(s, n);
    lemma_offset_mono(s, n, s.len() as int);
    assert forall|i: int| k <= i < n implies !ends_line_spec(s, i) by {
        assert(s[i] != '\n' && s[i] != '\r');
    }
    lemma_walk_plain(s, k, n, span.line as int, span.column as int);
}

/// A span that ends behind the last line end in it ends one line further on for it than it would there, counted from
/// the first column; a carriage return and the newline behind it are one line end.
pub proof fn law_end_behind_a_line(s: Seq<char>, span: Span, k: int, n: int, last: int)
    requires
        covers(s, span, k, n),
        k <= last < n,
        n - last <= usize::MAX,
        s[last] == '\n' || (s[last] == '\r' && !(last + 1 < s.len() && s[last + 1] == '\n')),
        forall|i: int| last < i < n ==> #[trigger] s[i] != '\n' && s[i] != '\r',
        walk_to(s, k, last, span.line as int, span.column as int).0 < usize::MAX,
    ensures
        end_location_spec(s, span) == Some(
            (walk_to(s, k, last, span.line as int, span.column as int).0 + 1, n - last),
        ),
{
    lemma_seek(s, k);
    lemma_seek(s, n);
    lemma_offset_mono(s, n, s.len() as int);
    lemma_walk_over(s, k, last, n, span.line as int, span.column as int);
    let (line, column) = walk_to(s, k, last, span.line as int, span.column as int);
    assert(ends_line_spec(s, last));
    assert(walk_to(s, last, n, line, column) == walk_to(s, last + 1, n, line + 1, 1));
    assert forall|i: int| last + 1 <= i < n implies !ends_line_spec(s, i) by {
        assert(s[i] != '\n' && s[i] != '\r');
    }
    lemma_walk_plain(s, last + 1, n, line + 1, 1);
}

/// A rendered diagnostic says where it is, how severe, of which kind and with which code, and its message; behind that
/// come the line and the marker under it, each four columns in.
pub proof fn law_rendered(d: DiagnosticView, s: Seq<char>, origin: Option<Seq<char>>)
    ensures
        ({
            let place = (match origin {
                Some(origin) => origin + ":"@,
                None => Seq::empty(),
            }) + location_spec(s, d.span);
            let head = place + ": "@ + (if d.severity == Severity::Error { "error"@ } else { "warning"@ }) + " "@
                + d.category.spelling() + "["@ + d.code + "]: "@ + d.message;
            render_spec(d, s, origin) == match snippet_spec(s, d.span) {
                Some((line, marker)) => head + "\n    "@ + line + "\n    "@ + marker,
                None => head,
            }
        }),
        location_spec(s, d.span).take((decimal(d.span.line as nat) + ":"@ + decimal(d.span.column as nat)).len() as int)
            == decimal(d.span.line as nat) + ":"@ + decimal(d.span.column as nat),
{
    let start = decimal(d.span.line as nat) + ":"@ + decimal(d.span.column as nat);
    assert(location_spec(s, d.span).take(start.len() as int) =~= start);
}

/// The span from one span through another starts where the first does and ends where the second does.
pub proof fn law_through(first: Span, last: Span)
    requires
        first.offset <= last.offset,
        last.offset + last.len <= usize::MAX,
    ensures
        through_spec(first, last).offset == first.offset,
        through_spec(first, last).offset + through_spec(first, last).len == last.offset + last.len,
        through_spec(first, last).line == first.line,
        through_spec(first, last).column == first.column,
{
}

/// A character takes one to four bytes, as UTF-8 has it.
pub proof fn law_widths(s: Seq<char>, k: int)
    requires
        0 <= k < s.len(),
    ensures
        byte_offset(s, k + 1) == byte_offset(s, k) + (if (s[k] as u32) < 0x80 {
            1int
        } else if (s[k] as u32) < 0x800 {
            2
        } else if (s[k] as u32) < 0x1_0000 {
            3
        } else {
            4
        }),
        byte_offset(s, 0) == 0,
{
}

} // verus!
