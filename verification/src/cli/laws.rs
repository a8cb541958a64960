//! What holds of everything that is printed.

use vstd::prelude::*;
use crate::cli::print::Glyph;
use crate::cli::print::entries_literal;
use crate::cli::print::escaped;
use crate::cli::print::escaped_text;
use crate::cli::print::glyphs;
use crate::cli::print::hex;
use crate::cli::print::hex_digit;
use crate::cli::print::is_control;
use crate::cli::print::items_literal;
use crate::cli::print::key_literal;
use crate::cli::print::literal_of;
use crate::cli::print::separator;
use crate::cli::print::string_literal;
use crate::exec::wire::plain_key;
use crate::interpreter::value::ValueView;
use crate::script::identifier;

verus! {

proof fn lemma_glyphs(text: Seq<char>)
    ensures
        glyphs(text).len() == text.len(),
        forall|i: int| 0 <= i < text.len() ==> #[trigger] glyphs(text)[i] == Glyph::Char(text[i] as int),
    decreases text.len(),
{
    reveal(glyphs);
    if text.len() > 0 {
        lemma_glyphs(text.drop_last());
        assert forall|i: int| 0 <= i < text.len() implies #[trigger] glyphs(text)[i] == Glyph::Char(text[i] as int) by {
            if i < text.len() - 1 {
                assert(glyphs(text.drop_last())[i] == Glyph::Char(text.drop_last()[i] as int));
            }
        }
    }
}

proof fn lemma_glyphs_join(a: Seq<char>, b: Seq<char>)
    ensures
        glyphs(a + b) == glyphs(a) + glyphs(b),
{
    lemma_glyphs(a);
    lemma_glyphs(b);
    lemma_glyphs(a + b);
    assert(glyphs(a + b) =~= glyphs(a) + glyphs(b));
}

/// The escapes, spelled out.
proof fn lemma_escaped(c: char)
    ensures
        escaped(c).len() > 0,
        escaped(c)[0] != '"',
        (escaped(c)[0] == '\\') == (c == '"' || c == '\\' || is_control(c)),
        escaped(c)[0] != '\\' ==> escaped(c) == seq![c],
        c == '"' ==> escaped(c) == seq!['\\', '"'],
        c == '\\' ==> escaped(c) == seq!['\\', '\\'],
        c == '\n' ==> escaped(c) == seq!['\\', 'n'],
        c == '\r' ==> escaped(c) == seq!['\\', 'r'],
        c == '\t' ==> escaped(c) == seq!['\\', 't'],
        is_control(c) && c != '\n' && c != '\r' && c != '\t' ==> escaped(c) == seq!['\\', 'u', '{'] + hex(
            c as u32 as nat,
        ) + seq!['}'],
{
    reveal_strlit("\\\"");
    reveal_strlit("\\\\");
    reveal_strlit("\\n");
    reveal_strlit("\\r");
    reveal_strlit("\\t");
    reveal_strlit("\\u{");
    reveal_strlit("}");
    assert("\\\""@ =~= seq!['\\', '"']);
    assert("\\\\"@ =~= seq!['\\', '\\']);
    assert("\\n"@ =~= seq!['\\', 'n']);
    assert("\\r"@ =~= seq!['\\', 'r']);
    assert("\\t"@ =~= seq!['\\', 't']);
    assert("\\u{"@ =~= seq!['\\', 'u', '{']);
    assert("}"@ =~= seq!['}']);
}

/// A control character's number is one or two hex digits, from which it can be told.
proof fn lemma_hex(n: nat)
    requires
        n < 256,
    ensures
        n < 16 ==> hex(n).len() == 1,
        n >= 16 ==> hex(n).len() == 2,
        forall|i: int| 0 <= i < hex(n).len() ==> #[trigger] hex(n)[i] != '}' && !is_control(hex(n)[i]),
{
    reveal_with_fuel(hex, 3);
}

proof fn lemma_hex_tells(a: nat, b: nat)
    requires
        a < 256,
        b < 256,
        hex(a) == hex(b),
    ensures
        a == b,
{
    reveal_with_fuel(hex, 3);
    lemma_hex(a);
    lemma_hex(b);
    if a >= 16 {
        assert(hex(a)[0] == hex_digit((a / 16) as int) && hex(a)[1] == hex_digit((a % 16) as int));
        assert(hex(b)[0] == hex_digit((b / 16) as int) && hex(b)[1] == hex_digit((b % 16) as int));
    } else {
        assert(hex(a)[0] == hex_digit(a as int) && hex(b)[0] == hex_digit(b as int));
    }
}

/// The first escaped character of a text can be told from what follows.
proof fn lemma_first_escape(a: char, b: char, x: Seq<Glyph>, y: Seq<Glyph>)
    requires
        glyphs(escaped(a)) + x == glyphs(escaped(b)) + y,
    ensures
        a == b,
        x == y,
{
    let (s, t) = (glyphs(escaped(a)) + x, glyphs(escaped(b)) + y);
    lemma_escaped(a);
    lemma_escaped(b);
    lemma_glyphs(escaped(a));
    lemma_glyphs(escaped(b));
    assert(s[0] == Glyph::Char(escaped(a)[0] as int) && t[0] == Glyph::Char(escaped(b)[0] as int));
    if escaped(a)[0] == '\\' {
        assert(escaped(a).len() >= 2 && escaped(b).len() >= 2);
        assert(s[1] == Glyph::Char(escaped(a)[1] as int) && t[1] == Glyph::Char(escaped(b)[1] as int));
        if escaped(a)[1] == 'u' {
            let (m, n) = (a as u32 as nat, b as u32 as nat);
            lemma_hex(m);
            lemma_hex(n);
            let (p, q) = (hex(m).len() as int, hex(n).len() as int);
            assert(escaped(a)[3 + p] == '}' && escaped(b)[3 + q] == '}');
            assert(s[3 + p] == Glyph::Char('}' as int) && t[3 + q] == Glyph::Char('}' as int));
            assert forall|i: int| 0 <= i < p implies #[trigger] hex(m)[i] == escaped(a)[3 + i] && s[3 + i]
                == Glyph::Char(hex(m)[i] as int) by {}
            assert forall|i: int| 0 <= i < q implies #[trigger] hex(n)[i] == escaped(b)[3 + i] && t[3 + i]
                == Glyph::Char(hex(n)[i] as int) by {}
            if p < q {
                assert(hex(n)[p] != '}');
            } else if q < p {
                assert(hex(m)[q] != '}');
            }
            assert forall|i: int| 0 <= i < p implies hex(m)[i] == hex(n)[i] by {
                assert(s[3 + i] == Glyph::Char(hex(m)[i] as int) && t[3 + i] == Glyph::Char(hex(n)[i] as int));
            }
            assert(hex(m) =~= hex(n));
            lemma_hex_tells(m, n);
        }
    }
    assert(a == b);
    let k = glyphs(escaped(a)).len() as int;
    assert(x =~= s.skip(k));
    assert(y =~= t.skip(k));
}

proof fn lemma_escaped_front(text: Seq<char>, n: int)
    requires
        0 < n <= text.len(),
    ensures
        escaped_text(text, n) == escaped(text[0]) + escaped_text(text.skip(1), n - 1),
    decreases n,
{
    if n == 1 {
        assert(escaped_text(text, 0) =~= Seq::empty());
        assert(escaped_text(text, 1) =~= escaped(text[0]) + escaped_text(text.skip(1), 0));
    } else {
        lemma_escaped_front(text, n - 1);
        assert(text.skip(1)[n - 2] == text[n - 1]);
        assert(escaped_text(text, n) =~= escaped(text[0]) + escaped_text(text.skip(1), n - 1));
    }
}

/// A string literal ends where its text does.
proof fn lemma_string_tail(a: Seq<char>, b: Seq<char>, x: Seq<Glyph>, y: Seq<Glyph>)
    requires
        glyphs(escaped_text(a, a.len() as int)) + seq![Glyph::Char('"' as int)] + x == glyphs(
            escaped_text(b, b.len() as int),
        ) + seq![Glyph::Char('"' as int)] + y,
    ensures
        a == b,
        x == y,
    decreases a.len(),
{
    let quote = seq![Glyph::Char('"' as int)];
    let (s, t) = (glyphs(escaped_text(a, a.len() as int)) + quote + x, glyphs(escaped_text(b, b.len() as int)) + quote + y);
    lemma_glyphs(Seq::empty());
    if a.len() > 0 {
        let rest = escaped_text(a.skip(1), a.len() - 1);
        lemma_escaped_front(a, a.len() as int);
        lemma_glyphs_join(escaped(a[0]), rest);
        lemma_escaped(a[0]);
        lemma_glyphs(escaped(a[0]));
        assert(s =~= glyphs(escaped(a[0])) + (glyphs(rest) + quote + x));
        assert(s[0] == Glyph::Char(escaped(a[0])[0] as int));
    } else {
        assert(s =~= quote + x);
        assert(s[0] == Glyph::Char('"' as int));
    }
    if b.len() > 0 {
        let rest = escaped_text(b.skip(1), b.len() - 1);
        lemma_escaped_front(b, b.len() as int);
        lemma_glyphs_join(escaped(b[0]), rest);
        lemma_escaped(b[0]);
        lemma_glyphs(escaped(b[0]));
        assert(t =~= glyphs(escaped(b[0])) + (glyphs(rest) + quote + y));
        assert(t[0] == Glyph::Char(escaped(b[0])[0] as int));
    } else {
        assert(t =~= quote + y);
        assert(t[0] == Glyph::Char('"' as int));
    }
    if a.len() > 0 && b.len() > 0 {
        let u = glyphs(escaped_text(a.skip(1), a.len() - 1)) + quote + x;
        let v = glyphs(escaped_text(b.skip(1), b.len() - 1)) + quote + y;
        lemma_first_escape(a[0], b[0], u, v);
        lemma_string_tail(a.skip(1), b.skip(1), x, y);
        assert(a =~= seq![a[0]] + a.skip(1));
        assert(b =~= seq![b[0]] + b.skip(1));
    } else {
        assert(a =~= b);
        assert(x =~= s.skip(1));
        assert(y =~= t.skip(1));
    }
}

/// A string literal starts with a quote and goes on with its text.
proof fn lemma_string_literal(text: Seq<char>, x: Seq<Glyph>)
    ensures
        glyphs(string_literal(text)) + x == seq![Glyph::Char('"' as int)] + (glyphs(escaped_text(text, text.len() as int))
            + seq![Glyph::Char('"' as int)] + x),
{
    reveal_strlit("\"");
    let body = escaped_text(text, text.len() as int);
    assert("\""@ =~= seq!['"']);
    lemma_glyphs_join("\""@ + body, "\""@);
    lemma_glyphs_join("\""@, body);
    lemma_glyphs("\""@);
    assert(glyphs("\""@) =~= seq![Glyph::Char('"' as int)]);
    assert(glyphs(string_literal(text)) + x =~= seq![Glyph::Char('"' as int)] + (glyphs(body) + seq![Glyph::Char('"' as int)] + x));
}

proof fn lemma_string_prefix(a: Seq<char>, b: Seq<char>, x: Seq<Glyph>, y: Seq<Glyph>)
    requires
        glyphs(string_literal(a)) + x == glyphs(string_literal(b)) + y,
    ensures
        a == b,
        x == y,
{
    let quote = seq![Glyph::Char('"' as int)];
    let u = glyphs(escaped_text(a, a.len() as int)) + quote + x;
    let v = glyphs(escaped_text(b, b.len() as int)) + quote + y;
    lemma_string_literal(a, x);
    lemma_string_literal(b, y);
    assert(u =~= (quote + u).skip(1));
    assert(v =~= (quote + v).skip(1));
    lemma_string_tail(a, b, x, y);
}

/// The first glyph of a text.
proof fn lemma_text_front(text: Seq<char>, x: Seq<Glyph>)
    requires
        text.len() > 0,
    ensures
        (glyphs(text) + x)[0] == Glyph::Char(text[0] as int),
{
    lemma_glyphs(text);
}

/// A text of fixed length can be told from what follows.
proof fn lemma_text_prefix(text: Seq<char>, x: Seq<Glyph>, y: Seq<Glyph>)
    requires
        glyphs(text) + x == glyphs(text) + y,
    ensures
        x == y,
{
    let k = glyphs(text).len() as int;
    assert(x =~= (glyphs(text) + x).skip(k));
    assert(y =~= (glyphs(text) + y).skip(k));
}

/// A bare key ends at the colon behind it.
proof fn lemma_bare_key(a: Seq<char>, b: Seq<char>, x: Seq<Glyph>, y: Seq<Glyph>)
    requires
        plain_key(a),
        plain_key(b),
        a.len() <= b.len(),
        x.len() > 0,
        x[0] == Glyph::Char(':' as int),
        glyphs(a) + x == glyphs(b) + y,
    ensures
        a == b,
        x == y,
{
    let (s, t) = (glyphs(a) + x, glyphs(b) + y);
    lemma_glyphs(a);
    lemma_glyphs(b);
    if a.len() < b.len() {
        let k = a.len() as int;
        assert(s[k] == Glyph::Char(':' as int));
        assert(t[k] == Glyph::Char(b[k] as int));
    }
    assert forall|i: int| 0 <= i < a.len() implies a[i] == b[i] by {
        assert(s[i] == Glyph::Char(a[i] as int) && t[i] == Glyph::Char(b[i] as int));
    }
    assert(a =~= b);
    lemma_text_prefix(a, x, y);
}

/// A key in literal form ends at the colon behind it.
proof fn lemma_key_prefix(a: Seq<char>, b: Seq<char>, x: Seq<Glyph>, y: Seq<Glyph>, reserved: Seq<String>)
    requires
        x.len() > 0,
        y.len() > 0,
        x[0] == Glyph::Char(':' as int),
        y[0] == Glyph::Char(':' as int),
        glyphs(key_literal(a, reserved)) + x == glyphs(key_literal(b, reserved)) + y,
    ensures
        a == b,
        x == y,
{
    lemma_key_front(a, x, reserved);
    lemma_key_front(b, y, reserved);
    if identifier(a, reserved) && identifier(b, reserved) {
        if a.len() <= b.len() {
            lemma_bare_key(a, b, x, y);
        } else {
            lemma_bare_key(b, a, y, x);
        }
    } else {
        assert(!identifier(a, reserved) && !identifier(b, reserved));
        lemma_string_prefix(a, b, x, y);
    }
}

/// A key in literal form starts with a quote, unless it is bare; either way not with a space or a comma.
proof fn lemma_key_front(key: Seq<char>, x: Seq<Glyph>, reserved: Seq<String>)
    ensures
        identifier(key, reserved) <==> (glyphs(key_literal(key, reserved)) + x)[0] != Glyph::Char('"' as int),
        (glyphs(key_literal(key, reserved)) + x)[0] != Glyph::Char(' ' as int),
        (glyphs(key_literal(key, reserved)) + x).len() > 0,
{
    if identifier(key, reserved) {
        lemma_text_front(key, x);
        lemma_glyphs(key);
    } else {
        lemma_string_literal(key, x);
    }
}

/// What a value's literal form starts with.
spec fn front(value: ValueView) -> Glyph {
    match value {
        ValueView::Null => Glyph::Char('n' as int),
        ValueView::Bool(b) => Glyph::Char(
            if b {
                't'
            } else {
                'f'
            } as int,
        ),
        ValueView::Number(bits) => Glyph::Number(bits),
        ValueView::String(_) => Glyph::Char('"' as int),
        ValueView::Array(_) => Glyph::Char('[' as int),
        ValueView::Object(_) => Glyph::Char('{' as int),
    }
}

proof fn lemma_words()
    ensures
        "null"@[0] == 'n' && "null"@.len() > 0,
        "true"@[0] == 't' && "true"@.len() > 0,
        "false"@[0] == 'f' && "false"@.len() > 0,
        "["@ == seq!['['],
        "]"@ == seq![']'],
        "{}"@ == seq!['{', '}'],
        "{ "@ == seq!['{', ' '],
        " }"@ == seq![' ', '}'],
        ", "@ == seq![',', ' '],
        ": "@ == seq![':', ' '],
{
    reveal_strlit("null");
    reveal_strlit("true");
    reveal_strlit("false");
    reveal_strlit("[");
    reveal_strlit("]");
    reveal_strlit("{}");
    reveal_strlit("{ ");
    reveal_strlit(" }");
    reveal_strlit(", ");
    reveal_strlit(": ");
    assert("["@ =~= seq!['[']);
    assert("]"@ =~= seq![']']);
    assert("{}"@ =~= seq!['{', '}']);
    assert("{ "@ =~= seq!['{', ' ']);
    assert(" }"@ =~= seq![' ', '}']);
    assert(", "@ =~= seq![',', ' ']);
    assert(": "@ =~= seq![':', ' ']);
}

proof fn lemma_front(value: ValueView, x: Seq<Glyph>, reserved: Seq<String>)
    ensures
        literal_of(value, reserved).len() > 0,
        (literal_of(value, reserved) + x)[0] == front(value),
{
    lemma_words();
    match value {
        ValueView::Null => {
            lemma_glyphs("null"@);
        },
        ValueView::Bool(b) => {
            lemma_glyphs("true"@);
            lemma_glyphs("false"@);
        },
        ValueView::Number(bits) => {},
        ValueView::String(text) => {
            lemma_string_literal(text, Seq::empty());
            lemma_string_literal(text, x);
            assert(glyphs(string_literal(text)) + Seq::empty() =~= glyphs(string_literal(text)));
        },
        ValueView::Array(items) => {
            lemma_glyphs("["@);
        },
        ValueView::Object(entries) => {
            lemma_glyphs("{}"@);
            lemma_glyphs("{ "@);
        },
    }
}

/// A value in literal form can be told from what follows.
proof fn lemma_value_prefix(a: ValueView, b: ValueView, x: Seq<Glyph>, y: Seq<Glyph>, reserved: Seq<String>)
    requires
        literal_of(a, reserved) + x == literal_of(b, reserved) + y,
    ensures
        a == b,
        x == y,
    decreases a, 0int,
{
    lemma_front(a, x, reserved);
    lemma_front(b, y, reserved);
    lemma_words();
    match (a, b) {
        (ValueView::Null, ValueView::Null) => {
            lemma_text_prefix("null"@, x, y);
        },
        (ValueView::Bool(p), ValueView::Bool(q)) => {
            if p {
                lemma_text_prefix("true"@, x, y);
            } else {
                lemma_text_prefix("false"@, x, y);
            }
        },
        (ValueView::Number(p), ValueView::Number(q)) => {
            assert(x =~= (literal_of(a, reserved) + x).skip(1));
            assert(y =~= (literal_of(b, reserved) + y).skip(1));
        },
        (ValueView::String(p), ValueView::String(q)) => {
            lemma_string_prefix(p, q, x, y);
        },
        (ValueView::Array(p), ValueView::Array(q)) => {
            let (u, v) = (items_literal(p, 0, reserved) + x, items_literal(q, 0, reserved) + y);
            assert(literal_of(a, reserved) + x =~= glyphs("["@) + u);
            assert(literal_of(b, reserved) + y =~= glyphs("["@) + v);
            lemma_text_prefix("["@, u, v);
            lemma_items_prefix(p, q, 0, x, y, reserved);
            assert(p =~= q);
        },
        (ValueView::Object(p), ValueView::Object(q)) => {
            let (s, t) = (literal_of(a, reserved) + x, literal_of(b, reserved) + y);
            lemma_glyphs("{}"@);
            lemma_glyphs("{ "@);
            assert(p.len() == 0 ==> s[1] == Glyph::Char('}' as int));
            assert(p.len() > 0 ==> s[1] == Glyph::Char(' ' as int));
            assert(q.len() == 0 ==> t[1] == Glyph::Char('}' as int));
            assert(q.len() > 0 ==> t[1] == Glyph::Char(' ' as int));
            if p.len() == 0 {
                lemma_text_prefix("{}"@, x, y);
                assert(p =~= q);
            } else {
                let (u, v) = (entries_literal(p, 0, reserved) + x, entries_literal(q, 0, reserved) + y);
                assert(s =~= glyphs("{ "@) + u);
                assert(t =~= glyphs("{ "@) + v);
                lemma_text_prefix("{ "@, u, v);
                lemma_entries_prefix(p, q, 0, x, y, reserved);
                assert(p =~= q);
            }
        },
        _ => {},
    }
}

/// What the items from `k` on start with, and where the first of them ends.
proof fn lemma_items_front(items: Seq<ValueView>, k: int, x: Seq<Glyph>, reserved: Seq<String>)
    requires
        0 <= k <= items.len(),
    ensures
        (items_literal(items, k, reserved) + x).len() > 0,
        k == items.len() <==> (items_literal(items, k, reserved) + x)[0] == Glyph::Char(']' as int),
        k < items.len() ==> items_literal(items, k, reserved) + x == glyphs(separator(k)) + (literal_of(
            items[k],
            reserved,
        ) + (items_literal(items, k + 1, reserved) + x)),
{
    lemma_words();
    lemma_glyphs("]"@);
    lemma_glyphs(separator(k));
    if k < items.len() {
        let rest = items_literal(items, k + 1, reserved) + x;
        lemma_front(items[k], rest, reserved);
        assert(items_literal(items, k, reserved) + x =~= glyphs(separator(k)) + (literal_of(items[k], reserved) + rest));
        if k == 0 {
            assert((items_literal(items, k, reserved) + x)[0] == (literal_of(items[k], reserved) + rest)[0]);
        } else {
            assert((items_literal(items, k, reserved) + x)[0] == Glyph::Char(',' as int));
        }
    }
}

proof fn lemma_items_prefix(
    a: Seq<ValueView>,
    b: Seq<ValueView>,
    k: int,
    x: Seq<Glyph>,
    y: Seq<Glyph>,
    reserved: Seq<String>,
)
    requires
        0 <= k <= a.len(),
        k <= b.len(),
        items_literal(a, k, reserved) + x == items_literal(b, k, reserved) + y,
    ensures
        a.len() == b.len(),
        forall|i: int| k <= i < a.len() ==> a[i] == b[i],
        x == y,
    decreases a, a.len() - k,
{
    lemma_items_front(a, k, x, reserved);
    lemma_items_front(b, k, y, reserved);
    if k < a.len() {
        let (u, v) = (items_literal(a, k + 1, reserved) + x, items_literal(b, k + 1, reserved) + y);
        lemma_text_prefix(separator(k), literal_of(a[k], reserved) + u, literal_of(b[k], reserved) + v);
        lemma_value_prefix(a[k], b[k], u, v, reserved);
        lemma_items_prefix(a, b, k + 1, x, y, reserved);
    } else {
        lemma_text_prefix("]"@, x, y);
    }
}

/// What the entries from `k` on start with, and where the first of them ends.
proof fn lemma_entries_front(entries: Seq<(Seq<char>, ValueView)>, k: int, x: Seq<Glyph>, reserved: Seq<String>)
    requires
        0 <= k <= entries.len(),
    ensures
        (entries_literal(entries, k, reserved) + x).len() > 0,
        k == entries.len() <==> (entries_literal(entries, k, reserved) + x)[0] == Glyph::Char(' ' as int),
        k < entries.len() ==> entries_literal(entries, k, reserved) + x == glyphs(separator(k)) + (glyphs(
            key_literal(entries[k].0, reserved),
        ) + (glyphs(": "@) + (literal_of(entries[k].1, reserved) + (entries_literal(entries, k + 1, reserved) + x)))),
{
    lemma_words();
    lemma_glyphs(" }"@);
    lemma_glyphs(separator(k));
    if k < entries.len() {
        let rest = glyphs(": "@) + (literal_of(entries[k].1, reserved) + (entries_literal(entries, k + 1, reserved) + x));
        let key = glyphs(key_literal(entries[k].0, reserved));
        lemma_key_front(entries[k].0, rest, reserved);
        assert(entries_literal(entries, k, reserved) + x =~= glyphs(separator(k)) + (key + rest));
        if k == 0 {
            assert((entries_literal(entries, k, reserved) + x)[0] == (key + rest)[0]);
        } else {
            assert((entries_literal(entries, k, reserved) + x)[0] == Glyph::Char(',' as int));
        }
    }
}

proof fn lemma_entries_prefix(
    a: Seq<(Seq<char>, ValueView)>,
    b: Seq<(Seq<char>, ValueView)>,
    k: int,
    x: Seq<Glyph>,
    y: Seq<Glyph>,
    reserved: Seq<String>,
)
    requires
        0 <= k <= a.len(),
        k <= b.len(),
        entries_literal(a, k, reserved) + x == entries_literal(b, k, reserved) + y,
    ensures
        a.len() == b.len(),
        forall|i: int| k <= i < a.len() ==> a[i] == b[i],
        x == y,
    decreases a, a.len() - k,
{
    lemma_entries_front(a, k, x, reserved);
    lemma_entries_front(b, k, y, reserved);
    if k < a.len() {
        let (u, v) = (entries_literal(a, k + 1, reserved) + x, entries_literal(b, k + 1, reserved) + y);
        let (p, q) = (literal_of(a[k].1, reserved) + u, literal_of(b[k].1, reserved) + v);
        lemma_words();
        lemma_text_front(": "@, p);
        lemma_text_front(": "@, q);
        lemma_glyphs(": "@);
        lemma_text_prefix(
            separator(k),
            glyphs(key_literal(a[k].0, reserved)) + (glyphs(": "@) + p),
            glyphs(key_literal(b[k].0, reserved)) + (glyphs(": "@) + q),
        );
        lemma_key_prefix(a[k].0, b[k].0, glyphs(": "@) + p, glyphs(": "@) + q, reserved);
        lemma_text_prefix(": "@, p, q);
        lemma_value_prefix(a[k].1, b[k].1, u, v, reserved);
        lemma_entries_prefix(a, b, k + 1, x, y, reserved);
    } else {
        lemma_text_prefix(" }"@, x, y);
    }
}

/// What is printed says which value was printed, as far as its numbers are told apart: two values whose glyphs
/// are the same, with each number by its bits, are one. Only zero and the negative zero, which differ in their
/// bits, are spelled alike.
pub proof fn law_printed_tells_the_value(a: ValueView, b: ValueView, reserved: Seq<String>)
    requires
        literal_of(a, reserved) == literal_of(b, reserved),
    ensures
        a == b,
{
    let none = Seq::<Glyph>::empty();
    assert(literal_of(a, reserved) + none =~= literal_of(a, reserved));
    assert(literal_of(b, reserved) + none =~= literal_of(b, reserved));
    lemma_value_prefix(a, b, none, none, reserved);
}

/// Whether no glyph is a control character, a line break among them.
pub open spec fn on_one_line(printed: Seq<Glyph>) -> bool {
    forall|i: int| 0 <= i < printed.len() ==> (#[trigger] printed[i] matches Glyph::Char(c) ==> c >= 0x20 && !(0x7f
        <= c <= 0x9f))
}

/// A character's code point fits 32 bits.
proof fn lemma_code(c: char)
    ensures
        c as u32 == c as int,
{
}

proof fn lemma_text_line(text: Seq<char>)
    requires
        forall|i: int| 0 <= i < text.len() ==> !is_control(#[trigger] text[i]),
    ensures
        on_one_line(glyphs(text)),
{
    lemma_glyphs(text);
    assert forall|i: int| 0 <= i < glyphs(text).len() implies (#[trigger] glyphs(text)[i] matches Glyph::Char(c) ==> c
        >= 0x20 && !(0x7f <= c <= 0x9f)) by {
        assert(!is_control(text[i]));
        lemma_code(text[i]);
    }
}

proof fn lemma_line_join(a: Seq<Glyph>, b: Seq<Glyph>)
    requires
        on_one_line(a),
        on_one_line(b),
    ensures
        on_one_line(a + b),
{
    assert forall|i: int| 0 <= i < (a + b).len() implies (#[trigger] (a + b)[i] matches Glyph::Char(c) ==> c >= 0x20
        && !(0x7f <= c <= 0x9f)) by {
        if i < a.len() {
            assert((a + b)[i] == a[i]);
        } else {
            assert((a + b)[i] == b[i - a.len()]);
        }
    }
}

proof fn lemma_escaped_line(text: Seq<char>, n: int)
    requires
        0 <= n <= text.len(),
    ensures
        forall|i: int| 0 <= i < escaped_text(text, n).len() ==> !is_control(#[trigger] escaped_text(text, n)[i]),
    decreases n,
{
    if n > 0 {
        let c = text[n - 1];
        let before = escaped_text(text, n - 1);
        lemma_escaped_line(text, n - 1);
        lemma_escaped(c);
        if is_control(c) {
            lemma_hex(c as u32 as nat);
        }
        assert forall|i: int| 0 <= i < escaped(c).len() implies !is_control(#[trigger] escaped(c)[i]) by {
            if is_control(c) && c != '\n' && c != '\r' && c != '\t' && 3 <= i < 3 + hex(c as u32 as nat).len() {
                assert(escaped(c)[i] == hex(c as u32 as nat)[i - 3]);
            }
        }
        assert forall|i: int| 0 <= i < escaped_text(text, n).len() implies !is_control(
            #[trigger] escaped_text(text, n)[i],
        ) by {
            if i < before.len() {
                assert(escaped_text(text, n)[i] == before[i]);
            } else {
                assert(escaped_text(text, n)[i] == escaped(c)[i - before.len()]);
            }
        }
    }
}

proof fn lemma_string_line(text: Seq<char>)
    ensures
        on_one_line(glyphs(string_literal(text))),
{
    reveal_strlit("\"");
    lemma_escaped_line(text, text.len() as int);
    let body = escaped_text(text, text.len() as int);
    assert forall|i: int| 0 <= i < string_literal(text).len() implies !is_control(#[trigger] string_literal(text)[i]) by {
        if 0 < i <= body.len() {
            assert(string_literal(text)[i] == body[i - 1]);
        }
    }
    lemma_text_line(string_literal(text));
}

proof fn lemma_punctuation_line(k: int)
    ensures
        on_one_line(glyphs(separator(k))),
        on_one_line(glyphs("["@)),
        on_one_line(glyphs("]"@)),
        on_one_line(glyphs("{}"@)),
        on_one_line(glyphs("{ "@)),
        on_one_line(glyphs(" }"@)),
        on_one_line(glyphs(": "@)),
{
    lemma_words();
    lemma_text_line(separator(k));
    lemma_text_line("["@);
    lemma_text_line("]"@);
    lemma_text_line("{}"@);
    lemma_text_line("{ "@);
    lemma_text_line(" }"@);
    lemma_text_line(": "@);
}

/// What is printed is one line, and holds no control character.
pub proof fn law_printed_on_one_line(value: ValueView, reserved: Seq<String>)
    ensures
        on_one_line(literal_of(value, reserved)),
    decreases value, 0int,
{
    lemma_punctuation_line(0);
    match value {
        ValueView::Null => {
            reveal_strlit("null");
            lemma_text_line("null"@);
        },
        ValueView::Bool(b) => {
            reveal_strlit("true");
            reveal_strlit("false");
            lemma_text_line("true"@);
            lemma_text_line("false"@);
        },
        ValueView::Number(_) => {},
        ValueView::String(text) => {
            lemma_string_line(text);
        },
        ValueView::Array(items) => {
            lemma_items_line(items, 0, reserved);
            lemma_line_join(glyphs("["@), items_literal(items, 0, reserved));
        },
        ValueView::Object(entries) => {
            lemma_entries_line(entries, 0, reserved);
            lemma_line_join(glyphs("{ "@), entries_literal(entries, 0, reserved));
        },
    }
}

proof fn lemma_items_line(items: Seq<ValueView>, k: int, reserved: Seq<String>)
    requires
        0 <= k <= items.len(),
    ensures
        on_one_line(items_literal(items, k, reserved)),
    decreases items, items.len() - k,
{
    lemma_punctuation_line(k);
    if k < items.len() {
        law_printed_on_one_line(items[k], reserved);
        lemma_items_line(items, k + 1, reserved);
        lemma_line_join(glyphs(separator(k)), literal_of(items[k], reserved));
        lemma_line_join(
            glyphs(separator(k)) + literal_of(items[k], reserved),
            items_literal(items, k + 1, reserved),
        );
    }
}

proof fn lemma_entries_line(entries: Seq<(Seq<char>, ValueView)>, k: int, reserved: Seq<String>)
    requires
        0 <= k <= entries.len(),
    ensures
        on_one_line(entries_literal(entries, k, reserved)),
    decreases entries, entries.len() - k,
{
    lemma_punctuation_line(k);
    if k < entries.len() {
        let (key, value) = entries[k];
        if identifier(key, reserved) {
            lemma_text_line(key);
        } else {
            lemma_string_line(key);
        }
        law_printed_on_one_line(value, reserved);
        lemma_entries_line(entries, k + 1, reserved);
        let first = glyphs(separator(k)) + glyphs(key_literal(key, reserved));
        lemma_line_join(glyphs(separator(k)), glyphs(key_literal(key, reserved)));
        lemma_line_join(first, glyphs(": "@));
        lemma_line_join(first + glyphs(": "@), literal_of(value, reserved));
        lemma_line_join(
            first + glyphs(": "@) + literal_of(value, reserved),
            entries_literal(entries, k + 1, reserved),
        );
    }
}

/// How a value is printed: `null`, `true` and `false` as such, a number as itself, a text in quotes, an array in square
/// brackets and an object in braces, with commas between, keys before a colon, and nothing inside what is empty.
pub proof fn law_literal_forms(value: ValueView, reserved: Seq<String>)
    ensures
        value is Null ==> literal_of(value, reserved) == glyphs("null"@),
        value == ValueView::Bool(true) ==> literal_of(value, reserved) == glyphs("true"@),
        value == ValueView::Bool(false) ==> literal_of(value, reserved) == glyphs("false"@),
        value matches ValueView::Number(bits) ==> literal_of(value, reserved) == seq![Glyph::Number(bits)],
        value matches ValueView::String(text) ==> literal_of(value, reserved) == glyphs(
            "\""@ + escaped_text(text, text.len() as int) + "\""@,
        ),
        value matches ValueView::Array(items) ==> literal_of(value, reserved) == glyphs("["@) + items_literal(
            items,
            0,
            reserved,
        ),
        value matches ValueView::Object(entries) ==> if entries.len() == 0 {
            literal_of(value, reserved) == glyphs("{}"@)
        } else {
            literal_of(value, reserved) == glyphs("{ "@) + entries_literal(entries, 0, reserved)
        },
{
}

/// The items of an array follow each other behind a comma, and a bracket ends them; so do the entries of an object,
/// each with its key, a colon and its value, and a brace.
pub proof fn law_literal_parts(items: Seq<ValueView>, entries: Seq<(Seq<char>, ValueView)>, k: int, reserved: Seq<String>)
    requires
        0 <= k,
    ensures
        k == items.len() ==> items_literal(items, k, reserved) == glyphs("]"@),
        k < items.len() ==> items_literal(items, k, reserved) == glyphs(if k > 0 { ", "@ } else { Seq::empty() }) + literal_of(
            items[k],
            reserved,
        ) + items_literal(items, k + 1, reserved),
        k == entries.len() ==> entries_literal(entries, k, reserved) == glyphs(" }"@),
        k < entries.len() ==> entries_literal(entries, k, reserved) == glyphs(if k > 0 { ", "@ } else { Seq::empty() })
            + glyphs(
            if crate::script::identifier(entries[k].0, reserved) {
                entries[k].0
            } else {
                "\""@ + escaped_text(entries[k].0, entries[k].0.len() as int) + "\""@
            },
        ) + glyphs(": "@) + literal_of(entries[k].1, reserved) + entries_literal(entries, k + 1, reserved),
{
}

/// What is escaped in a text: the quote and the backslash with a backslash, and line ends, tabs and other control
/// characters by their names or numbers. Everything else stands for itself.
pub proof fn law_escapes(c: char)
    ensures
        c == '"' ==> escaped(c) == "\\\""@,
        c == '\\' ==> escaped(c) == "\\\\"@,
        c == '\n' ==> escaped(c) == "\\n"@,
        c == '\r' ==> escaped(c) == "\\r"@,
        c == '\t' ==> escaped(c) == "\\t"@,
        c != '"' && c != '\\' && (c as u32) >= 0x20 && !(0x7f <= c as u32 <= 0x9f) ==> escaped(c) == seq![c],
{
}

} // verus!
