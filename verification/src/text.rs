//! Text helpers: comparing, joining and spelling, each with the exact text it produces.

use vstd::prelude::*;
use vstd::utf8::encode_utf8;
use vstd::utf8::encode_utf8_decode_utf8;

verus! {

/// `String::push`: the character goes behind what the string already holds.
pub assume_specification[ std::string::String::push ](text: &mut std::string::String, c: char)
    ensures
        final(text)@ == old(text)@.push(c),
;

/// Equal bytes are equal text.
pub proof fn lemma_same_bytes(a: Seq<char>, b: Seq<char>)
    requires
        encode_utf8(a) == encode_utf8(b),
    ensures
        a == b,
{
    encode_utf8_decode_utf8(a);
    encode_utf8_decode_utf8(b);
}

/// Whether two texts are the same.
pub fn same(a: &str, b: &str) -> (r: bool)
    ensures
        r == (a@ == b@),
{
    let x = a.as_bytes();
    let y = b.as_bytes();
    if x.len() != y.len() {
        return false;
    }
    let mut i: usize = 0;
    while i < x.len()
        invariant
            i <= x.len(),
            x.len() == y.len(),
            x@ == encode_utf8(a@),
            y@ == encode_utf8(b@),
            forall|j: int| 0 <= j < i ==> x@[j] == y@[j],
        decreases x.len() - i,
    {
        if x[i] != y[i] {
            return false;
        }
        i = i + 1;
    }
    proof {
        assert(x@ =~= y@);
        lemma_same_bytes(a@, b@);
    }
    true
}

/// Whether `list` holds the text `wanted`.
pub open spec fn holds(list: Seq<String>, wanted: Seq<char>) -> bool {
    exists|i: int| 0 <= i < list.len() && #[trigger] list[i]@ == wanted
}

/// Whether `list` holds the text `wanted`.
pub fn list_holds(list: &Vec<String>, wanted: &str) -> (r: bool)
    ensures
        r == holds(list@, wanted@),
{
    let mut i: usize = 0;
    while i < list.len()
        invariant
            i <= list.len(),
            forall|j: int| 0 <= j < i ==> (#[trigger] list@[j])@ != wanted@,
        decreases list.len() - i,
    {
        if same(list[i].as_str(), wanted) {
            return true;
        }
        i = i + 1;
    }
    false
}

/// The decimal digit `d`.
pub open spec fn digit(d: nat) -> char {
    ('0' as nat + d) as char
}

/// A natural number in decimal, without leading zeros.
pub open spec fn decimal(n: nat) -> Seq<char>
    decreases n,
{
    if n < 10 {
        seq![digit(n)]
    } else {
        decimal(n / 10).push(digit(n % 10))
    }
}

/// An integer in decimal.
pub open spec fn signed_decimal(n: int) -> Seq<char> {
    if n < 0 {
        "-"@ + decimal((-n) as nat)
    } else {
        decimal(n as nat)
    }
}

fn digit_char(d: u8) -> (r: char)
    requires
        d < 10,
    ensures
        r == digit(d as nat),
{
    (48 + d) as char
}

/// Append `n` in decimal.
pub fn push_decimal(out: &mut String, n: u64)
    ensures
        final(out)@ == old(out)@ + decimal(n as nat),
    decreases n,
{
    if n < 10 {
        out.push(digit_char(n as u8));
        proof {
            assert(old(out)@.push(digit(n as nat)) =~= old(out)@ + decimal(n as nat));
        }
    } else {
        push_decimal(out, n / 10);
        out.push(digit_char((n % 10) as u8));
        proof {
            assert((old(out)@ + decimal((n / 10) as nat)).push(digit((n % 10) as nat)) =~= old(
                out,
            )@ + decimal(n as nat));
        }
    }
}

/// `n` in decimal.
pub fn decimal_text(n: u64) -> (r: String)
    ensures
        r@ == decimal(n as nat),
{
    let mut out = String::new();
    push_decimal(&mut out, n);
    proof {
        assert(Seq::<char>::empty() + decimal(n as nat) =~= decimal(n as nat));
    }
    out
}

/// `n` in decimal, signed.
pub fn signed_decimal_text(n: i64) -> (r: String)
    ensures
        r@ == signed_decimal(n as int),
{
    if n < 0 {
        let mut out = "-".to_owned();
        let magnitude: u64 = if n == i64::MIN {
            0x8000_0000_0000_0000
        } else {
            (-n) as u64
        };
        push_decimal(&mut out, magnitude);
        out
    } else {
        decimal_text(n as u64)
    }
}

/// The characters of `text`.
pub fn chars_of(text: &str) -> (r: Vec<char>)
    ensures
        r@ == text@,
{
    let mut out: Vec<char> = Vec::new();
    for c in it: text.chars()
        invariant
            out@ == it.seq().take(it.index() as int),
            it.seq() == text@,
    {
        out.push(c);
    }
    out
}

/// The text of the characters `list[from..to]`.
pub fn text_of(list: &Vec<char>, from: usize, to: usize) -> (r: String)
    requires
        from <= to <= list@.len(),
    ensures
        r@ == list@.subrange(from as int, to as int),
{
    let mut out = String::new();
    let mut i = from;
    while i < to
        invariant
            from <= i <= to <= list@.len(),
            out@ == list@.subrange(from as int, i as int),
        decreases to - i,
    {
        out.push(list[i]);
        i = i + 1;
        proof {
            assert(list@.subrange(from as int, i as int) =~= list@.subrange(
                from as int,
                i - 1,
            ).push(list@[i - 1]));
        }
    }
    out
}

/// `text` cut to `limit` characters, with an ellipsis when anything was cut.
pub open spec fn bounded_to_spec(text: Seq<char>, limit: int) -> Seq<char> {
    if text.len() > limit {
        text.subrange(0, limit) + "…"@
    } else {
        text
    }
}

/// `text` cut to `limit` characters, with an ellipsis when anything was cut.
pub fn bounded_to(text: &str, limit: usize) -> (r: String)
    ensures
        r@ == bounded_to_spec(text@, limit as int),
{
    if text.unicode_len() > limit {
        let mut out = text.substring_char(0, limit).to_owned();
        out.append("…");
        out
    } else {
        text.to_owned()
    }
}

/// Whether `a` comes before `b` in code point order.
pub open spec fn precedes(a: Seq<char>, b: Seq<char>) -> bool
    decreases a.len(),
{
    if b.len() == 0 {
        false
    } else if a.len() == 0 {
        true
    } else if a[0] != b[0] {
        (a[0] as u32) < (b[0] as u32)
    } else {
        precedes(a.drop_first(), b.drop_first())
    }
}

/// Whether `a` comes before `b` in code point order.
pub fn comes_before(a: &str, b: &str) -> (r: bool)
    ensures
        r == precedes(a@, b@),
{
    let x = chars_of(a);
    let y = chars_of(b);
    let mut i: usize = 0;
    proof {
        assert(x@.skip(0) =~= a@);
        assert(y@.skip(0) =~= b@);
    }
    while i < x.len() && i < y.len()
        invariant
            x@ == a@,
            y@ == b@,
            i <= x@.len(),
            i <= y@.len(),
            precedes(a@, b@) == precedes(x@.skip(i as int), y@.skip(i as int)),
        decreases x.len() - i,
    {
        if x[i] != y[i] {
            return (x[i] as u32) < (y[i] as u32);
        }
        proof {
            assert(x@.skip(i as int).drop_first() =~= x@.skip(i + 1));
            assert(y@.skip(i as int).drop_first() =~= y@.skip(i + 1));
        }
        i = i + 1;
    }
    i < y.len()
}

/// The order is total, and strict.
pub proof fn lemma_precedes_total(a: Seq<char>, b: Seq<char>)
    ensures
        precedes(a, b) || precedes(b, a) || a == b,
        !(precedes(a, b) && precedes(b, a)),
        !precedes(a, a),
    decreases a.len(),
{
    if a.len() > 0 {
        lemma_precedes_total(a.drop_first(), a.drop_first());
    }
    if a.len() > 0 && b.len() > 0 && a[0] == b[0] {
        lemma_precedes_total(a.drop_first(), b.drop_first());
        if a.drop_first() == b.drop_first() {
            assert(a =~= seq![a[0]] + a.drop_first());
            assert(b =~= seq![b[0]] + b.drop_first());
        }
    } else if a.len() == 0 && b.len() == 0 {
        assert(a =~= b);
    } else if a.len() > 0 && b.len() > 0 {
        vstd::utf8::char_u32_cast(a[0], a[0] as u32);
        vstd::utf8::char_u32_cast(b[0], b[0] as u32);
    }
}

/// The order is transitive.
pub proof fn lemma_precedes_transitive(a: Seq<char>, b: Seq<char>, c: Seq<char>)
    requires
        precedes(a, b),
        precedes(b, c),
    ensures
        precedes(a, c),
    decreases a.len(),
{
    if a.len() > 0 && a[0] == b[0] && b[0] == c[0] {
        lemma_precedes_transitive(a.drop_first(), b.drop_first(), c.drop_first());
    }
}

/// Strictly ascending.
pub open spec fn ascending(list: Seq<String>) -> bool {
    forall|i: int, j: int| 0 <= i < j < list.len() ==> precedes((#[trigger] list[i])@, (#[trigger] list[j])@)
}

/// Put `name`, which is not in the ascending `list`, where it keeps it ascending.
pub fn insert_ascending(list: &mut Vec<String>, name: String)
    requires
        ascending(old(list)@),
        !holds(old(list)@, name@),
    ensures
        ascending(final(list)@),
        forall|text: Seq<char>| holds(final(list)@, text) <==> (holds(old(list)@, text) || text == name@),
{
    let ghost before = list@;
    let mut i: usize = 0;
    while i < list.len() && comes_before(list[i].as_str(), name.as_str())
        invariant
            i <= list@.len(),
            list@ == before,
            forall|j: int| 0 <= j < i ==> precedes((#[trigger] list@[j])@, name@),
        decreases list.len() - i,
    {
        i = i + 1;
    }
    let ghost text = name@;
    let ghost new = name;
    list.insert(i, name);
    proof {
        assert forall|j: int| i <= j < before.len() implies precedes(text, (#[trigger] before[j])@) by {
            lemma_precedes_total(before[i as int]@, text);
            assert(before[i as int]@ != text);
            if j > i {
                lemma_precedes_transitive(text, before[i as int]@, before[j]@);
            }
        }
        assert(list@ =~= before.insert(i as int, new));
        assert forall|wanted: Seq<char>| holds(list@, wanted) <==> (holds(before, wanted) || wanted == text) by {
            if holds(before, wanted) {
                let k = choose|k: int| 0 <= k < before.len() && #[trigger] before[k]@ == wanted;
                if k < i {
                    assert(list@[k]@ == wanted);
                } else {
                    assert(list@[k + 1]@ == wanted);
                }
            }
            if wanted == text {
                assert(list@[i as int]@ == wanted);
            }
            if holds(list@, wanted) {
                let k = choose|k: int| 0 <= k < list@.len() && #[trigger] list@[k]@ == wanted;
                if k < i {
                    assert(before[k]@ == wanted);
                } else if k > i {
                    assert(before[k - 1]@ == wanted);
                }
            }
        }
    }
}

/// What `{:?}` prints of a text: the text in double quotes, with the characters that need it
/// escaped.
pub uninterp spec fn quoted(text: Seq<char>) -> Seq<char>;

/// Whether a text holds nothing but printable ASCII, without double quotes and backslashes.
pub open spec fn plain(text: Seq<char>) -> bool {
    forall|i: int| 0 <= i < text.len() ==> ' ' <= #[trigger] text[i] <= '~' && text[i] != '"' && text[i] != '\\'
}

/// `<str as Debug>::fmt`, through `format!("{:?}")`: the quoted, escaped spelling of `text`, which
/// is a function of the text alone. Printable ASCII other than quotes and backslashes stays as it
/// is.
#[verifier::external_body]
pub(crate) fn quote(text: &str) -> (r: String)
    ensures
        r@ == quoted(text@),
        plain(text@) ==> r@ == "\""@ + text@ + "\""@,
{
    format!("{:?}", text)
}

/// The number that some decimal digits write.
pub open spec fn written(digits: Seq<char>) -> int
    decreases digits.len(),
{
    if digits.len() == 0 {
        0
    } else {
        written(digits.drop_last()) * 10 + (digits.last() as int - 48)
    }
}

/// A number in decimal is written with the digits `0` to `9`, without a zero in front, and writes that number.
pub proof fn law_decimal(n: nat)
    ensures
        decimal(n).len() > 0,
        forall|i: int| 0 <= i < decimal(n).len() ==> '0' <= #[trigger] decimal(n)[i] <= '9',
        n > 0 ==> decimal(n)[0] != '0',
        written(decimal(n)) == n,
    decreases n,
{
    reveal_with_fuel(written, 2);
    if n >= 10 {
        law_decimal(n / 10);
        assert(decimal(n).drop_last() =~= decimal(n / 10));
        assert(decimal(n)[0] == decimal(n / 10)[0]);
        assert forall|i: int| 0 <= i < decimal(n).len() implies '0' <= #[trigger] decimal(n)[i] <= '9' by {
            if i < decimal(n).len() - 1 {
                assert(decimal(n)[i] == decimal(n / 10)[i]);
            }
        }
    } else {
        assert(seq![digit(n)].drop_last() =~= Seq::empty());
    }
}

/// A text that is cut keeps its first characters and ends in an ellipsis; one that fits is left alone.
pub proof fn law_cut(text: Seq<char>, limit: int)
    requires
        0 <= limit,
    ensures
        text.len() <= limit ==> bounded_to_spec(text, limit) == text,
        text.len() > limit ==> bounded_to_spec(text, limit) == text.take(limit) + "…"@,
{
    if text.len() > limit {
        assert(text.subrange(0, limit) =~= text.take(limit));
    }
}

} // verus!
