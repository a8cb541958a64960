//! A Script result in literal form.
//!
//! What is printed can be pasted back into a script. Nothing here recurses: how deep a result nests
//! is the script's choice. The spelling of a number comes from outside, so what is printed is text
//! with numbers between.

use vstd::prelude::*;
use crate::interpreter::attach::entry_nodes;
use crate::interpreter::attach::item_nodes;
use crate::interpreter::attach::nodes;
use crate::interpreter::value::Array;
use crate::interpreter::value::Object;
use crate::interpreter::value::Value;
use crate::interpreter::value::ValueView;
use crate::number::Number;
use crate::script::identifier;
use crate::script::is_identifier;
use crate::text::chars_of;

verus! {

/// One character of what is printed, by its code point, or one number.
#[verifier::ext_equal]
pub ghost enum Glyph {
    Char(int),
    Number(u64),
}

/// A text, character by character.
#[verifier::opaque]
pub open spec fn glyphs(text: Seq<char>) -> Seq<Glyph>
    decreases text.len(),
{
    if text.len() == 0 {
        Seq::empty()
    } else {
        glyphs(text.drop_last()).push(Glyph::Char(text.last() as int))
    }
}

/// A piece of what is printed.
#[derive(Debug)]
pub enum Piece {
    Text(String),
    Number(Number),
}

impl View for Piece {
    type V = Seq<Glyph>;

    open spec fn view(&self) -> Seq<Glyph> {
        match *self {
            Piece::Text(text) => glyphs(text@),
            Piece::Number(n) => seq![Glyph::Number(n.bits())],
        }
    }
}

/// What some pieces print.
pub open spec fn printed(pieces: Seq<Piece>) -> Seq<Glyph>
    decreases pieces.len(),
{
    if pieces.len() == 0 {
        Seq::empty()
    } else {
        printed(pieces.drop_last()) + pieces.last()@
    }
}

/// The hex digit of a number below sixteen.
pub open spec fn hex_digit(n: int) -> char {
    if n < 10 {
        (48 + n) as char
    } else {
        (87 + n) as char
    }
}

/// A number in hex.
pub open spec fn hex(n: nat) -> Seq<char>
    decreases n,
{
    if n < 16 {
        seq![hex_digit(n as int)]
    } else {
        hex(n / 16).push(hex_digit((n % 16) as int))
    }
}

/// Whether a character is a control character.
pub open spec fn is_control(c: char) -> bool {
    (c as u32) < 0x20 || 0x7f <= c as u32 <= 0x9f
}

/// A character in a string literal.
pub open spec fn escaped(c: char) -> Seq<char> {
    if c == '"' {
        "\\\""@
    } else if c == '\\' {
        "\\\\"@
    } else if c == '\n' {
        "\\n"@
    } else if c == '\r' {
        "\\r"@
    } else if c == '\t' {
        "\\t"@
    } else if is_control(c) {
        "\\u{"@ + hex(c as u32 as nat) + "}"@
    } else {
        seq![c]
    }
}

/// The first `n` characters of a text in a string literal.
pub open spec fn escaped_text(text: Seq<char>, n: int) -> Seq<char>
    decreases n,
{
    if n <= 0 {
        Seq::empty()
    } else {
        escaped_text(text, n - 1) + escaped(text[n - 1])
    }
}

/// A text as a string literal.
pub open spec fn string_literal(text: Seq<char>) -> Seq<char> {
    "\""@ + escaped_text(text, text.len() as int) + "\""@
}

/// An object key: bare where it can be, quoted otherwise.
pub open spec fn key_literal(key: Seq<char>, reserved: Seq<String>) -> Seq<char> {
    if identifier(key, reserved) {
        key
    } else {
        string_literal(key)
    }
}

/// What stands before an item.
pub open spec fn separator(k: int) -> Seq<char> {
    if k > 0 {
        ", "@
    } else {
        Seq::empty()
    }
}

/// A value in literal form.
pub open spec fn literal_of(value: ValueView, reserved: Seq<String>) -> Seq<Glyph>
    decreases value, 0int,
{
    match value {
        ValueView::Null => glyphs("null"@),
        ValueView::Bool(b) => if b {
            glyphs("true"@)
        } else {
            glyphs("false"@)
        },
        ValueView::Number(bits) => seq![Glyph::Number(bits)],
        ValueView::String(text) => glyphs(string_literal(text)),
        ValueView::Array(items) => glyphs("["@) + items_literal(items, 0, reserved),
        ValueView::Object(entries) => if entries.len() == 0 {
            glyphs("{}"@)
        } else {
            glyphs("{ "@) + entries_literal(entries, 0, reserved)
        },
    }
}

/// The items of an array from `k` on, and its end.
pub open spec fn items_literal(items: Seq<ValueView>, k: int, reserved: Seq<String>) -> Seq<Glyph>
    decreases items, items.len() - k,
{
    if k < 0 || k >= items.len() {
        glyphs("]"@)
    } else {
        glyphs(separator(k)) + literal_of(items[k], reserved) + items_literal(items, k + 1, reserved)
    }
}

/// The entries of an object from `k` on, and its end.
pub open spec fn entries_literal(entries: Seq<(Seq<char>, ValueView)>, k: int, reserved: Seq<String>) -> Seq<Glyph>
    decreases entries, entries.len() - k,
{
    if k < 0 || k >= entries.len() {
        glyphs(" }"@)
    } else {
        glyphs(separator(k)) + glyphs(key_literal(entries[k].0, reserved)) + glyphs(": "@) + literal_of(
            entries[k].1,
            reserved,
        ) + entries_literal(entries, k + 1, reserved)
    }
}

fn push_hex(out: &mut String, n: u32)
    ensures
        final(out)@ == old(out)@ + hex(n as nat),
    decreases n,
{
    if n >= 16 {
        push_hex(out, n / 16);
    }
    let digit = (n % 16) as u8;
    let c = if digit < 10 {
        (48 + digit) as char
    } else {
        (87 + digit) as char
    };
    out.push(c);
    proof {
        assert(out@ =~= old(out)@ + hex(n as nat));
    }
}

fn push_escaped(out: &mut String, c: char)
    ensures
        final(out)@ == old(out)@ + escaped(c),
{
    let n = c as u32;
    if c == '"' {
        out.append("\\\"");
    } else if c == '\\' {
        out.append("\\\\");
    } else if c == '\n' {
        out.append("\\n");
    } else if c == '\r' {
        out.append("\\r");
    } else if c == '\t' {
        out.append("\\t");
    } else if n < 0x20 || (0x7f <= n && n <= 0x9f) {
        out.append("\\u{");
        push_hex(out, n);
        out.append("}");
        proof {
            assert(out@ =~= old(out)@ + escaped(c));
        }
    } else {
        out.push(c);
        proof {
            assert(out@ =~= old(out)@ + escaped(c));
        }
    }
}

/// A text as a string literal. Only double quotes, backslashes and control characters are escaped.
pub fn quote_string(text: &str) -> (r: String)
    ensures
        r@ == string_literal(text@),
{
    let chars = chars_of(text);
    let mut out = "\"".to_owned();
    let ghost head = out@;
    let mut i: usize = 0;
    proof {
        assert(out@ =~= head + escaped_text(text@, 0));
    }
    while i < chars.len()
        invariant
            i <= chars@.len(),
            chars@ == text@,
            out@ == head + escaped_text(text@, i as int),
        decreases chars.len() - i,
    {
        push_escaped(&mut out, chars[i]);
        i = i + 1;
        proof {
            assert(out@ =~= head + escaped_text(text@, i as int));
        }
    }
    out.append("\"");
    out
}

/// An object key in literal form.
pub fn quote_key(key: &str, reserved: &Vec<String>) -> (r: String)
    ensures
        r@ == key_literal(key@, reserved@),
{
    if is_identifier(key, reserved) {
        key.to_owned()
    } else {
        quote_string(key)
    }
}

/// What is still to be printed.
enum Step<'a> {
    Value(&'a Value),
    /// The items from this one on, and the end of the array.
    Items(&'a Array, usize),
    /// The entries from this one on, and the end of the object.
    Entries(&'a Object, usize),
}

spec fn step_literal(step: Step<'_>, reserved: Seq<String>) -> Seq<Glyph> {
    match step {
        Step::Value(value) => literal_of(value@, reserved),
        Step::Items(array, k) => items_literal(array@, k as int, reserved),
        Step::Entries(object, k) => entries_literal(object@, k as int, reserved),
    }
}

spec fn steps_literal(work: Seq<Step<'_>>, reserved: Seq<String>) -> Seq<Glyph>
    decreases work.len(),
{
    if work.len() == 0 {
        Seq::empty()
    } else {
        step_literal(work.last(), reserved) + steps_literal(work.drop_last(), reserved)
    }
}

spec fn effort(step: Step<'_>) -> int {
    match step {
        Step::Value(value) => 3 * nodes(value@) - 2,
        Step::Items(array, k) => 3 * (item_nodes(array@, array@.len() as int) - item_nodes(array@, k as int)),
        Step::Entries(object, k) => 3 * (entry_nodes(object@, object@.len() as int) - entry_nodes(
            object@,
            k as int,
        )),
    }
}

spec fn efforts(work: Seq<Step<'_>>) -> int
    decreases work.len(),
{
    if work.len() == 0 {
        0
    } else {
        efforts(work.drop_last()) + effort(work.last())
    }
}

spec fn step_ok(step: Step<'_>) -> bool {
    match step {
        Step::Value(_) => true,
        Step::Items(array, k) => k <= array@.len(),
        Step::Entries(object, k) => k <= object@.len(),
    }
}

spec fn steps_ok(work: Seq<Step<'_>>) -> bool {
    forall|i: int| 0 <= i < work.len() ==> step_ok(#[trigger] work[i])
}

proof fn lemma_item_nodes(items: Seq<ValueView>, k: int, n: int)
    requires
        0 <= k <= n <= items.len(),
    ensures
        item_nodes(items, k) <= item_nodes(items, n),
    decreases n,
{
    if k < n {
        lemma_item_nodes(items, k, n - 1);
    }
}

proof fn lemma_entry_nodes(entries: Seq<(Seq<char>, ValueView)>, k: int, n: int)
    requires
        0 <= k <= n <= entries.len(),
    ensures
        entry_nodes(entries, k) <= entry_nodes(entries, n),
    decreases n,
{
    if k < n {
        lemma_entry_nodes(entries, k, n - 1);
    }
}

proof fn lemma_effort(step: Step<'_>)
    requires
        step_ok(step),
    ensures
        effort(step) >= 0,
{
    match step {
        Step::Value(value) => {},
        Step::Items(array, k) => {
            lemma_item_nodes(array@, k as int, array@.len() as int);
        },
        Step::Entries(object, k) => {
            lemma_entry_nodes(object@, k as int, object@.len() as int);
        },
    }
}

proof fn lemma_efforts(work: Seq<Step<'_>>)
    requires
        steps_ok(work),
    ensures
        efforts(work) >= 0,
    decreases work.len(),
{
    if work.len() > 0 {
        lemma_effort(work.last());
        lemma_efforts(work.drop_last());
    }
}

proof fn lemma_pushed<'a>(work: Seq<Step<'a>>, step: Step<'a>, reserved: Seq<String>)
    requires
        steps_ok(work),
        step_ok(step),
    ensures
        steps_ok(work.push(step)),
        steps_literal(work.push(step), reserved) == step_literal(step, reserved) + steps_literal(work, reserved),
        efforts(work.push(step)) == efforts(work) + effort(step),
        efforts(work) >= 0,
        effort(step) >= 0,
{
    assert(work.push(step).drop_last() =~= work);
    lemma_efforts(work);
    lemma_effort(step);
}

/// Print a text.
fn put(out: &mut Vec<Piece>, text: String)
    ensures
        printed(final(out)@) == printed(old(out)@) + glyphs(text@),
{
    let ghost before = out@;
    out.push(Piece::Text(text));
    proof {
        assert(out@.drop_last() =~= before);
    }
}

fn put_separator(out: &mut Vec<Piece>, k: usize)
    ensures
        printed(final(out)@) == printed(old(out)@) + glyphs(separator(k as int)),
{
    if k > 0 {
        put(out, ", ".to_owned());
    } else {
        proof {
            reveal(glyphs);
            assert(printed(out@) + glyphs(separator(k as int)) =~= printed(out@));
        }
    }
}

/// `value` in literal form, as pieces of text with numbers between.
pub fn literal(value: &Value, reserved: &Vec<String>) -> (r: Vec<Piece>)
    ensures
        printed(r@) == literal_of(value@, reserved@),
{
    let mut out: Vec<Piece> = Vec::new();
    let mut work: Vec<Step<'_>> = Vec::new();
    proof {
        lemma_pushed(work@, Step::Value(value), reserved@);
    }
    work.push(Step::Value(value));
    proof {
        assert(literal_of(value@, reserved@) =~= printed(out@) + steps_literal(work@, reserved@));
    }
    while work.len() > 0
        invariant
            steps_ok(work@),
            literal_of(value@, reserved@) == printed(out@) + steps_literal(work@, reserved@),
        decreases efforts(work@), work@.len(),
    {
        let ghost all = work@;
        let ghost so_far = printed(out@);
        let step = work.pop().unwrap();
        let ghost base = work@;
        let ghost rest = steps_literal(base, reserved@);
        proof {
            assert(all.drop_last() =~= base);
            assert(all.last() == step);
            assert(step_ok(all[all.len() - 1]));
            assert forall|i: int| 0 <= i < base.len() implies step_ok(#[trigger] base[i]) by {
                assert(base[i] == all[i]);
            }
            lemma_efforts(base);
            lemma_effort(step);
        }
        match step {
            Step::Value(node) => match node {
                Value::Null => put(&mut out, "null".to_owned()),
                Value::Bool(b) => {
                    if *b {
                        put(&mut out, "true".to_owned())
                    } else {
                        put(&mut out, "false".to_owned())
                    }
                },
                Value::Number(n) => {
                    let ghost before = out@;
                    out.push(Piece::Number(*n));
                    proof {
                        assert(out@.drop_last() =~= before);
                    }
                },
                Value::String(text) => put(&mut out, quote_string(text)),
                Value::Array(array) => {
                    put(&mut out, "[".to_owned());
                    proof {
                        lemma_pushed(base, Step::Items(array, 0), reserved@);
                    }
                    work.push(Step::Items(array, 0));
                },
                Value::Object(object) => {
                    if object.len() == 0 {
                        put(&mut out, "{}".to_owned());
                    } else {
                        put(&mut out, "{ ".to_owned());
                        proof {
                            lemma_pushed(base, Step::Entries(object, 0), reserved@);
                        }
                        work.push(Step::Entries(object, 0));
                    }
                },
            },
            Step::Items(array, k) => {
                if k < array.len() {
                    put_separator(&mut out, k);
                    let item = array.get(k).unwrap();
                    proof {
                        lemma_pushed(base, Step::Items(array, (k + 1) as usize), reserved@);
                        lemma_pushed(
                            base.push(Step::Items(array, (k + 1) as usize)),
                            Step::Value(item),
                            reserved@,
                        );
                    }
                    work.push(Step::Items(array, k + 1));
                    work.push(Step::Value(item));
                } else {
                    put(&mut out, "]".to_owned());
                }
            },
            Step::Entries(object, k) => {
                if k < object.len() {
                    put_separator(&mut out, k);
                    put(&mut out, quote_key(object.key_at(k), reserved));
                    put(&mut out, ": ".to_owned());
                    let item = object.value_at(k);
                    proof {
                        lemma_pushed(base, Step::Entries(object, (k + 1) as usize), reserved@);
                        lemma_pushed(
                            base.push(Step::Entries(object, (k + 1) as usize)),
                            Step::Value(item),
                            reserved@,
                        );
                    }
                    work.push(Step::Entries(object, k + 1));
                    work.push(Step::Value(item));
                } else {
                    put(&mut out, " }".to_owned());
                }
            },
        }
        proof {
            assert(so_far + (step_literal(step, reserved@) + rest) =~= printed(out@) + steps_literal(
                work@,
                reserved@,
            ));
        }
    }
    proof {
        assert(printed(out@) + steps_literal(work@, reserved@) =~= printed(out@));
    }
    out
}

} // verus!
