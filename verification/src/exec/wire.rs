//! Script values to and from wire values.
//!
//! Inbound, a wire value becomes a Script value losslessly or not at all: every shape with no exact
//! counterpart is refused with the path to it. Outbound, a value is measured without recursion
//! first, so that one which could not be sent is refused before it is converted.

use vstd::prelude::*;
use vstd::utf8::encode_utf8;
use std::sync::Arc;
use crate::interpreter::attach::entry_nodes;
use crate::interpreter::attach::item_nodes;
use crate::interpreter::attach::nodes;
use crate::interpreter::value::Array;
use crate::interpreter::value::Object;
use crate::interpreter::value::Value;
use crate::interpreter::value::ValueView;
use crate::interpreter::value::lemma_gathered_distinct;
use crate::interpreter::value::pair_trees;
use crate::interpreter::value::trees;
use crate::message_pack::header_len;
use crate::message_pack::integer_len;
use crate::message_pack::string_len;
use crate::number::EXACT_INTEGER;
use crate::number::Number;
use crate::number::exact_integer;
use crate::number::integer_bits;
use crate::number::is_finite_bits;
use crate::number::is_nan_bits;
use crate::number::widen;
use crate::number::widened;
use crate::port::codec::MAX_NESTING_DEPTH;
use crate::port::frame::MAX_FRAME_LEN;
use crate::table::Table;
use crate::table::distinct;
use crate::table::has_key;
use crate::table::share;
use crate::text::bounded_to;
use crate::text::bounded_to_spec;
use crate::text::chars_of;
use crate::text::decimal;
use crate::text::push_decimal;
use crate::text::quote;
use crate::text::quoted;
use crate::text::signed_decimal;
use crate::text::signed_decimal_text;
use crate::text::decimal_text;
use crate::wire::Wire;
use crate::wire::WireView;
use crate::wire::items_view;
use crate::wire::lemma_item_smaller;
use crate::wire::lemma_pair_smaller;
use crate::wire::lemma_wire_items;
use crate::wire::pairs_view;

verus! {

/// The deepest nesting that a Script result may have: the envelope and the payload around it take
/// two of the levels that a frame may have.
pub const MAX_RESULT_DEPTH: usize = 126;

/// The most characters of a Backend's input that one segment of a path echoes.
pub const SEGMENT_LIMIT: usize = 64;

/// The most characters of a whole echoed path.
pub const PATH_LIMIT: usize = 256;

/// One step down to a nested value.
pub enum Segment<'a> {
    Key(&'a str),
    Index(usize),
}

/// What a [`Segment`] says.
#[verifier::ext_equal]
pub ghost enum SegmentView {
    Key(Seq<char>),
    Index(nat),
}

impl<'a> View for Segment<'a> {
    type V = SegmentView;

    open spec fn view(&self) -> SegmentView {
        match *self {
            Segment::Key(key) => SegmentView::Key(key@),
            Segment::Index(index) => SegmentView::Index(index as nat),
        }
    }
}

/// Where a value sits in the payload that it arrived in.
pub struct Path<'a> {
    root: &'static str,
    segments: Vec<Segment<'a>>,
}

/// What some segments say.
pub open spec fn segment_views(segments: Seq<Segment<'_>>) -> Seq<SegmentView> {
    Seq::new(segments.len(), |i: int| segments[i]@)
}

/// Whether a key reads unambiguously behind a dot.
pub open spec fn plain_key(key: Seq<char>) -> bool {
    key.len() > 0 && (is_letter(key[0]) || key[0] == '_') && forall|i: int|
        0 <= i < key.len() ==> is_letter(#[trigger] key[i]) || key[i] == '_' || '0' <= key[i] <= '9'
}

pub open spec fn is_letter(c: char) -> bool {
    'a' <= c <= 'z' || 'A' <= c <= 'Z'
}

/// A segment in a path.
pub open spec fn segment_text(segment: SegmentView) -> Seq<char> {
    match segment {
        SegmentView::Key(key) => if plain_key(key) {
            "."@ + bounded_to_spec(key, SEGMENT_LIMIT as int)
        } else {
            "["@ + quoted(bounded_to_spec(key, SEGMENT_LIMIT as int)) + "]"@
        },
        SegmentView::Index(index) => "["@ + decimal(index) + "]"@,
    }
}

/// The first `n` segments in a path.
pub open spec fn segments_text(segments: Seq<SegmentView>, n: int) -> Seq<char>
    decreases n,
{
    if n <= 0 {
        Seq::empty()
    } else {
        segments_text(segments, n - 1) + segment_text(segments[n - 1])
    }
}

/// A path in backticks, bounded.
pub open spec fn rendered(root: Seq<char>, segments: Seq<SegmentView>) -> Seq<char> {
    bounded_to_spec("`"@ + root + segments_text(segments, segments.len() as int), PATH_LIMIT as int) + "`"@
}

pub fn is_plain_key(key: &str) -> (r: bool)
    ensures
        r == plain_key(key@),
{
    let chars = chars_of(key);
    if chars.len() == 0 {
        return false;
    }
    let mut i: usize = 0;
    while i < chars.len()
        invariant
            i <= chars@.len(),
            chars@ == key@,
            forall|j: int|
                0 <= j < i ==> is_letter(#[trigger] key@[j]) || key@[j] == '_' || '0' <= key@[j] <= '9',
            i > 0 ==> is_letter(key@[0]) || key@[0] == '_',
        decreases chars.len() - i,
    {
        let c = chars[i];
        let letter = ('a' <= c && c <= 'z') || ('A' <= c && c <= 'Z') || c == '_';
        let digit = '0' <= c && c <= '9';
        if !letter && (i == 0 || !digit) {
            proof {
                assert(key@[i as int] == c);
            }
            return false;
        }
        i = i + 1;
    }
    true
}

/// `text` cut to [`SEGMENT_LIMIT`] characters, with an ellipsis when anything was cut.
pub fn bounded(text: &str) -> (r: String)
    ensures
        r@ == bounded_to_spec(text@, SEGMENT_LIMIT as int),
{
    bounded_to(text, SEGMENT_LIMIT)
}

impl<'a> Path<'a> {
    /// Where the path starts.
    pub closed spec fn start(self) -> Seq<char> {
        self.root@
    }

    /// The steps from there.
    pub closed spec fn steps(self) -> Seq<SegmentView> {
        segment_views(self.segments@)
    }

    /// The path of one starting variable.
    pub fn variable(name: &'a str) -> (r: Self)
        ensures
            r.start() == "variables"@,
            r.steps() == seq![SegmentView::Key(name@)],
    {
        let mut segments: Vec<Segment<'a>> = Vec::new();
        segments.push(Segment::Key(name));
        let r = Path { root: "variables", segments };
        proof {
            assert(r.steps() =~= seq![SegmentView::Key(name@)]);
        }
        r
    }

    /// The path of a host call's reply.
    pub fn reply() -> (r: Self)
        ensures
            r.start() == "value"@,
            r.steps() == Seq::<SegmentView>::empty(),
    {
        let r = Path { root: "value", segments: Vec::new() };
        proof {
            assert(r.steps() =~= Seq::<SegmentView>::empty());
        }
        r
    }

    fn render(&self) -> (r: String)
        ensures
            r@ == rendered(self.start(), self.steps()),
    {
        let mut out = "`".to_owned();
        out.append(self.root);
        let ghost head = out@;
        let mut i: usize = 0;
        proof {
            assert(out@ =~= head + segments_text(self.steps(), 0));
        }
        while i < self.segments.len()
            invariant
                i <= self.segments@.len(),
                head == "`"@ + self.start(),
                out@ == head + segments_text(self.steps(), i as int),
            decreases self.segments.len() - i,
        {
            let ghost before = out@;
            match &self.segments[i] {
                Segment::Key(key) => {
                    if is_plain_key(key) {
                        out.append(".");
                        out.append(bounded(key).as_str());
                    } else {
                        out.append("[");
                        out.append(quote(bounded(key).as_str()).as_str());
                        out.append("]");
                    }
                },
                Segment::Index(index) => {
                    out.append("[");
                    push_decimal(&mut out, *index as u64);
                    out.append("]");
                },
            }
            proof {
                let segment = self.steps()[i as int];
                assert(out@ =~= before + segment_text(segment));
                assert(out@ =~= head + segments_text(self.steps(), i + 1));
            }
            i = i + 1;
        }
        let mut path = bounded_to(out.as_str(), PATH_LIMIT);
        path.append("`");
        path
    }

    fn descend(&mut self, segment: Segment<'a>)
        ensures
            final(self).start() == old(self).start(),
            final(self).steps() == old(self).steps().push(segment@),
    {
        self.segments.push(segment);
        proof {
            assert(self.steps() =~= old(self).steps().push(segment@));
        }
    }

    fn ascend(&mut self)
        requires
            old(self).steps().len() > 0,
        ensures
            final(self).start() == old(self).start(),
            final(self).steps() == old(self).steps().drop_last(),
    {
        let _ = self.segments.pop();
        proof {
            assert(self.steps() =~= old(self).steps().drop_last());
        }
    }
}

/// What a wire value becomes: a Script value, or the place and the reason of the first thing that
/// has no exact counterpart.
#[verifier::ext_equal]
pub ghost enum Converted {
    Value(ValueView),
    Refused { at: Seq<SegmentView>, reason: Seq<char> },
}

/// How an infinite number or a NaN is spelled.
pub open spec fn non_finite_name(bits: u64) -> Seq<char> {
    if is_nan_bits(bits) {
        "NaN"@
    } else if bits >= crate::number::SIGN {
        "-inf"@
    } else {
        "inf"@
    }
}

/// A float becomes a number when it is finite.
pub open spec fn converted_float(bits: u64, at: Seq<SegmentView>) -> Converted {
    if is_finite_bits(bits) {
        Converted::Value(ValueView::Number(bits))
    } else {
        Converted::Refused {
            at,
            reason: "is "@ + non_finite_name(bits) + "; a Hexput number is always finite"@,
        }
    }
}

/// Whether one of the first `n` pairs has this key.
pub open spec fn key_before(pairs: Seq<(WireView, WireView)>, key: Seq<char>, n: int) -> bool {
    exists|i: int| 0 <= i < n && (#[trigger] pairs[i]).0 == WireView::String(key)
}

/// What a wire value at a place becomes.
pub open spec fn converted(value: WireView, at: Seq<SegmentView>) -> Converted
    decreases value, 0int,
{
    if at.len() > MAX_NESTING_DEPTH {
        Converted::Refused {
            at,
            reason: "nests deeper than "@ + decimal(MAX_NESTING_DEPTH as nat) + " levels"@,
        }
    } else {
        match value {
            WireView::Nil => Converted::Value(ValueView::Null),
            WireView::Boolean(b) => Converted::Value(ValueView::Bool(b)),
            WireView::Integer(n) => if -EXACT_INTEGER <= n <= EXACT_INTEGER {
                Converted::Value(ValueView::Number(integer_bits(n)))
            } else {
                Converted::Refused {
                    at,
                    reason: "is the integer "@ + signed_decimal(n)
                        + ", outside ±2^53, which a Hexput number cannot hold exactly"@,
                }
            },
            WireView::F32(bits) => converted_float(widened(bits), at),
            WireView::F64(bits) => converted_float(bits, at),
            WireView::String(text) => Converted::Value(ValueView::String(text)),
            WireView::Binary(_) => Converted::Refused {
                at,
                reason: "is binary data (or a string that is not valid UTF-8); Hexput has no binary type"@,
            },
            WireView::Ext(tag, _) => Converted::Refused {
                at,
                reason: "is a MessagePack extension (type "@ + signed_decimal(tag as int)
                    + "); Hexput has no such type"@,
            },
            WireView::Array(items) => match converted_items(items, at, items.len() as int) {
                Ok(values) => Converted::Value(ValueView::Array(values)),
                Err(refused) => refused,
            },
            WireView::Pairs(pairs) => match converted_pairs(pairs, at, pairs.len() as int) {
                Ok(entries) => Converted::Value(ValueView::Object(entries)),
                Err(refused) => refused,
            },
        }
    }
}

/// What the first `n` items of an array at a place become.
pub open spec fn converted_items(items: Seq<WireView>, at: Seq<SegmentView>, n: int) -> Result<Seq<ValueView>, Converted>
    decreases items, n,
{
    if n <= 0 || n > items.len() {
        Ok(Seq::empty())
    } else {
        match converted_items(items, at, n - 1) {
            Err(refused) => Err(refused),
            Ok(values) => match converted(items[n - 1], at.push(SegmentView::Index((n - 1) as nat))) {
                Converted::Value(value) => Ok(values.push(value)),
                refused => Err(refused),
            },
        }
    }
}

/// What the first `n` pairs of a map at a place become.
pub open spec fn converted_pairs(
    pairs: Seq<(WireView, WireView)>,
    at: Seq<SegmentView>,
    n: int,
) -> Result<Seq<(Seq<char>, ValueView)>, Converted>
    decreases pairs, n,
{
    if n <= 0 || n > pairs.len() {
        Ok(Seq::empty())
    } else {
        match converted_pairs(pairs, at, n - 1) {
            Err(refused) => Err(refused),
            Ok(entries) => match pairs[n - 1].0 {
                WireView::String(key) => if key_before(pairs, key, n - 1) {
                    Err(
                        Converted::Refused {
                            at,
                            reason: "repeats the key "@ + quoted(bounded_to_spec(key, SEGMENT_LIMIT as int)),
                        },
                    )
                } else {
                    match converted(pairs[n - 1].1, at.push(SegmentView::Key(key))) {
                        Converted::Value(value) => Ok(entries.push((key, value))),
                        refused => Err(refused),
                    }
                },
                _ => Err(
                    Converted::Refused { at, reason: "has a key that is not a string; object keys are strings"@ },
                ),
            },
        }
    }
}

proof fn lemma_items_refused(items: Seq<WireView>, at: Seq<SegmentView>, k: int, n: int)
    requires
        0 <= k <= n <= items.len(),
    ensures
        converted_items(items, at, k) is Err ==> converted_items(items, at, n) == converted_items(items, at, k),
    decreases n - k,
{
    if k < n {
        lemma_items_refused(items, at, k, n - 1);
    }
}

proof fn lemma_pairs_refused(pairs: Seq<(WireView, WireView)>, at: Seq<SegmentView>, k: int, n: int)
    requires
        0 <= k <= n <= pairs.len(),
    ensures
        converted_pairs(pairs, at, k) is Err ==> converted_pairs(pairs, at, n) == converted_pairs(pairs, at, k),
    decreases n - k,
{
    if k < n {
        lemma_pairs_refused(pairs, at, k, n - 1);
    }
}

/// The entries of a map have the keys of its pairs, each once.
proof fn lemma_entry_keys(pairs: Seq<(WireView, WireView)>, at: Seq<SegmentView>, n: int)
    requires
        0 <= n <= pairs.len(),
        converted_pairs(pairs, at, n) is Ok,
    ensures
        converted_pairs(pairs, at, n)->Ok_0.len() == n,
        forall|i: int|
            0 <= i < n ==> pairs[i].0 == WireView::String((#[trigger] converted_pairs(pairs, at, n)->Ok_0[i]).0),
        distinct(converted_pairs(pairs, at, n)->Ok_0),
    decreases n,
{
    if n > 0 {
        lemma_entry_keys(pairs, at, n - 1);
        let before = converted_pairs(pairs, at, n - 1)->Ok_0;
        let all = converted_pairs(pairs, at, n)->Ok_0;
        let key = pairs[n - 1].0->String_0;
        assert forall|i: int| 0 <= i < n implies pairs[i].0 == WireView::String((#[trigger] all[i]).0) by {
            if i < n - 1 {
                assert(all[i] == before[i]);
            }
        }
        assert forall|i: int, j: int| 0 <= i < n && 0 <= j < n && i != j implies (#[trigger] all[i]).0 != (
        #[trigger] all[j]).0 by {
            if i < n - 1 && j < n - 1 {
                assert(before[i].0 != before[j].0);
            } else if i < n - 1 {
                assert(pairs[i].0 == WireView::String(before[i].0));
            } else {
                assert(pairs[j].0 == WireView::String(before[j].0));
            }
        }
    }
}

fn refuse(path: &Path<'_>, reason: &str) -> (r: String)
    ensures
        r@ == rendered(path.start(), path.steps()) + " "@ + reason@,
{
    let mut message = path.render();
    message.append(" ");
    message.append(reason);
    message
}

fn finite(number: Number, path: &Path<'_>) -> (r: Result<Value, String>)
    ensures
        match converted_float(number.bits(), path.steps()) {
            Converted::Value(value) => r matches Ok(v) && v@ == value,
            Converted::Refused { at, reason } => r matches Err(text) && text@ == rendered(path.start(), at) + " "@
                + reason,
        },
{
    if number.is_finite() {
        return Ok(Value::Number(number));
    }
    let mut reason = "is ".to_owned();
    if number.is_nan() {
        reason.append("NaN");
    } else if number.to_bits() >= crate::number::SIGN {
        reason.append("-inf");
    } else {
        reason.append("inf");
    }
    reason.append("; a Hexput number is always finite");
    Err(refuse(path, reason.as_str()))
}

/// Whether a conversion did what it should: what came out, and where the path ends up.
pub open spec fn converts_to(
    r: Result<Value, String>,
    wanted: Converted,
    start: Seq<char>,
    before: Seq<SegmentView>,
    after: Seq<SegmentView>,
) -> bool {
    match wanted {
        Converted::Value(value) => after == before && (r matches Ok(v) && v@ == value),
        Converted::Refused { at, reason } => after == at && (r matches Err(text) && text@ == rendered(start, at) + " "@
            + reason),
    }
}

/// Convert an array's items.
fn items_to_hexput<'a>(items: &'a Vec<Wire>, path: &mut Path<'a>, whole: Ghost<WireView>) -> (r: Result<Value, String>)
    requires
        whole@ == WireView::Array(items_view(items@)),
        old(path).steps().len() <= MAX_NESTING_DEPTH,
    ensures
        final(path).start() == old(path).start(),
        converts_to(
            r,
            converted(whole@, old(path).steps()),
            old(path).start(),
            old(path).steps(),
            final(path).steps(),
        ),
    decreases whole@, 0int,
{
    let ghost views = items_view(items@);
    let ghost at = path.steps();
    let ghost start = path.start();
    let mut values: Vec<Value> = Vec::new();
    let mut i: usize = 0;
    proof {
        assert(trees(values@) =~= Seq::empty());
    }
    while i < items.len()
        invariant
            i <= items@.len(),
            whole@ == WireView::Array(views),
            views == items_view(items@),
            at == old(path).steps(),
            start == old(path).start(),
            at.len() <= MAX_NESTING_DEPTH,
            path.steps() == at,
            path.start() == start,
            converted_items(views, at, i as int) == Ok::<Seq<ValueView>, Converted>(trees(values@)),
        decreases items.len() - i,
    {
        proof {
            assert(views[i as int] == items@[i as int]@);
            lemma_item_smaller(whole@, i as int);
            lemma_items_refused(views, at, i + 1, views.len() as int);
        }
        path.descend(Segment::Index(i));
        let value = to_hexput(&items[i], path)?;
        path.ascend();
        let ghost before = trees(values@);
        values.push(value);
        proof {
            assert(at.push(SegmentView::Index(i as nat)).drop_last() =~= at);
            assert(trees(values@) =~= before.push(value@));
        }
        i = i + 1;
    }
    Ok(Value::Array(Array::from_values(values)))
}

/// Convert a map's pairs.
fn pairs_to_hexput<'a>(
    pairs: &'a Vec<(Wire, Wire)>,
    path: &mut Path<'a>,
    whole: Ghost<WireView>,
) -> (r: Result<Value, String>)
    requires
        whole@ == WireView::Pairs(pairs_view(pairs@)),
        old(path).steps().len() <= MAX_NESTING_DEPTH,
    ensures
        final(path).start() == old(path).start(),
        converts_to(
            r,
            converted(whole@, old(path).steps()),
            old(path).start(),
            old(path).steps(),
            final(path).steps(),
        ),
    decreases whole@, 0int,
{
    let ghost views = pairs_view(pairs@);
    let ghost at = path.steps();
    let ghost start = path.start();
    let mut seen: Table<bool> = Table::new();
    let mut entries: Vec<(Arc<str>, Value)> = Vec::new();
    let mut i: usize = 0;
    proof {
        assert(pair_trees(entries@) =~= Seq::empty());
    }
    while i < pairs.len()
        invariant
            i <= pairs@.len(),
            whole@ == WireView::Pairs(views),
            views == pairs_view(pairs@),
            at == old(path).steps(),
            start == old(path).start(),
            at.len() <= MAX_NESTING_DEPTH,
            path.steps() == at,
            path.start() == start,
            forall|key: Seq<char>| #[trigger] has_key(seen@, key) <==> key_before(views, key, i as int),
            converted_pairs(views, at, i as int) == Ok::<Seq<(Seq<char>, ValueView)>, Converted>(pair_trees(entries@)),
        decreases pairs.len() - i,
    {
        proof {
            assert(views[i as int].0 == pairs@[i as int].0@);
            assert(views[i as int].1 == pairs@[i as int].1@);
            lemma_pair_smaller(whole@, i as int);
            lemma_pairs_refused(views, at, i + 1, views.len() as int);
        }
        let key: &'a str = match pairs[i].0.as_str() {
            Some(key) => key,
            None => {
                return Err(refuse(path, "has a key that is not a string; object keys are strings"));
            },
        };
        if seen.find(key).is_some() {
            let mut reason = "repeats the key ".to_owned();
            reason.append(quote(bounded(key).as_str()).as_str());
            return Err(refuse(path, reason.as_str()));
        }
        let ghost known = seen@;
        seen.insert(share(key), true);
        proof {
            crate::table::lemma_put_keys(known, key@, true);
            assert forall|name: Seq<char>| #[trigger] has_key(seen@, name) <==> key_before(views, name, i + 1) by {
                assert(has_key(known, name) <==> key_before(views, name, i as int));
                if name == key@ {
                    assert(views[i as int].0 == WireView::String(name));
                }
            }
        }
        path.descend(Segment::Key(key));
        let value = to_hexput(&pairs[i].1, path)?;
        path.ascend();
        let ghost before = pair_trees(entries@);
        entries.push((share(key), value));
        proof {
            assert(at.push(SegmentView::Key(key@)).drop_last() =~= at);
            assert(pair_trees(entries@) =~= before.push((key@, value@)));
        }
        i = i + 1;
    }
    proof {
        lemma_entry_keys(views, at, views.len() as int);
        lemma_gathered_distinct(pair_trees(entries@));
    }
    Ok(Value::Object(Object::from_entries(entries)))
}

/// Convert a wire value into a Script value.
pub fn to_hexput<'a>(value: &'a Wire, path: &mut Path<'a>) -> (r: Result<Value, String>)
    ensures
        final(path).start() == old(path).start(),
        converts_to(
            r,
            converted(value@, old(path).steps()),
            old(path).start(),
            old(path).steps(),
            final(path).steps(),
        ),
    decreases value@, 1int,
{
    broadcast use lemma_wire_items;

    if path.segments.len() > MAX_NESTING_DEPTH {
        let mut reason = "nests deeper than ".to_owned();
        push_decimal(&mut reason, MAX_NESTING_DEPTH as u64);
        reason.append(" levels");
        return Err(refuse(path, reason.as_str()));
    }
    match value {
        Wire::Nil => Ok(Value::Null),
        Wire::Boolean(b) => Ok(Value::Bool(*b)),
        Wire::Unsigned(n) => if *n <= EXACT_INTEGER as u64 {
            Ok(Value::Number(Number::from_integer(*n as i64)))
        } else {
            let mut reason = "is the integer ".to_owned();
            reason.append(decimal_text(*n).as_str());
            reason.append(", outside ±2^53, which a Hexput number cannot hold exactly");
            Err(refuse(path, reason.as_str()))
        },
        Wire::Signed(n) => if -(EXACT_INTEGER as i64) <= *n && *n <= EXACT_INTEGER as i64 {
            Ok(Value::Number(Number::from_integer(*n)))
        } else {
            let mut reason = "is the integer ".to_owned();
            reason.append(signed_decimal_text(*n).as_str());
            reason.append(", outside ±2^53, which a Hexput number cannot hold exactly");
            Err(refuse(path, reason.as_str()))
        },
        Wire::F32(bits) => finite(widen(*bits), path),
        Wire::F64(bits) => finite(Number::from_bits(*bits), path),
        Wire::String(text) => Ok(Value::String(share(text.as_str()))),
        Wire::Binary(_) => Err(
            refuse(
                path,
                "is binary data (or a string that is not valid UTF-8); Hexput has no binary type",
            ),
        ),
        Wire::Ext(tag, _) => {
            let mut reason = "is a MessagePack extension (type ".to_owned();
            reason.append(signed_decimal_text(*tag as i64).as_str());
            reason.append("); Hexput has no such type");
            Err(refuse(path, reason.as_str()))
        },
        Wire::Array(items) => items_to_hexput(items, path, Ghost(value@)),
        Wire::Pairs(pairs) => pairs_to_hexput(pairs, path, Ghost(value@)),
    }
}

/// Why a value cannot be sent.
#[derive(Debug, Clone, Copy, PartialEq, Eq, Structural)]
pub enum Unsendable {
    /// It nests more containers deep than the limit.
    TooDeep,
    /// It is certain to take more bytes than there are left.
    TooLarge,
    /// It holds a kind of value that has no wire form.
    Unrepresentable,
}

/// `n`, or the largest `usize` when it is more.
pub open spec fn capped(n: nat) -> int {
    if n > usize::MAX {
        usize::MAX as int
    } else {
        n as int
    }
}

/// How many bytes the first `n` keys take, at the least.
pub open spec fn key_bytes(entries: Seq<(Seq<char>, ValueView)>, n: int) -> nat
    decreases n,
{
    if n <= 0 || n > entries.len() {
        0
    } else {
        key_bytes(entries, n - 1) + encode_utf8(entries[n - 1].0).len()
    }
}

/// How many bytes a value takes at the least, without what it holds: one, and the bytes of a text
/// or of the keys.
pub open spec fn least_bytes(value: ValueView) -> nat {
    match value {
        ValueView::String(text) => 1 + encode_utf8(text).len(),
        ValueView::Object(entries) => 1 + key_bytes(entries, entries.len() as int),
        _ => 1,
    }
}

/// What measuring comes to: the bytes still left, or why the value cannot be sent and the bytes that
/// were left where measuring stopped.
#[verifier::ext_equal]
pub ghost enum Measured {
    Left(int),
    Refused(Unsendable, int),
}

/// What measuring a value `depth` levels deep comes to, with `budget` bytes left. What a value holds
/// is measured behind it, the last item first.
pub open spec fn measured(value: ValueView, depth: int, max_depth: int, budget: int) -> Measured
    decreases value, 0int,
{
    let left = budget - capped(least_bytes(value));
    if (value is Array || value is Object) && depth >= max_depth {
        Measured::Refused(Unsendable::TooDeep, budget)
    } else if left < 0 {
        Measured::Refused(Unsendable::TooLarge, budget)
    } else {
        match value {
            ValueView::Array(items) => measured_items(items, items.len() as int, depth + 1, max_depth, left),
            ValueView::Object(entries) => measured_entries(entries, entries.len() as int, depth + 1, max_depth, left),
            _ => Measured::Left(left),
        }
    }
}

/// The first `n` items, the last of them first.
pub open spec fn measured_items(items: Seq<ValueView>, n: int, depth: int, max_depth: int, budget: int) -> Measured
    decreases items, n,
{
    if n <= 0 || n > items.len() {
        Measured::Left(budget)
    } else {
        match measured(items[n - 1], depth, max_depth, budget) {
            Measured::Left(left) => measured_items(items, n - 1, depth, max_depth, left),
            refused => refused,
        }
    }
}

/// The values of the first `n` entries, the last of them first.
pub open spec fn measured_entries(
    entries: Seq<(Seq<char>, ValueView)>,
    n: int,
    depth: int,
    max_depth: int,
    budget: int,
) -> Measured
    decreases entries, n,
{
    if n <= 0 || n > entries.len() {
        Measured::Left(budget)
    } else {
        match measured(entries[n - 1].1, depth, max_depth, budget) {
            Measured::Left(left) => measured_entries(entries, n - 1, depth, max_depth, left),
            refused => refused,
        }
    }
}

/// Values that wait to be measured, each with how deep it sits; the next one is the last.
spec fn waiting(pending: Seq<(&Value, usize)>) -> Seq<(ValueView, int)> {
    Seq::new(pending.len(), |i: int| (pending[i].0@, pending[i].1 as int))
}

spec fn drained(pending: Seq<(ValueView, int)>, max_depth: int, budget: int) -> Measured
    decreases pending.len(),
{
    if pending.len() == 0 {
        Measured::Left(budget)
    } else {
        match measured(pending.last().0, pending.last().1, max_depth, budget) {
            Measured::Left(left) => drained(pending.drop_last(), max_depth, left),
            refused => refused,
        }
    }
}

/// The first `n` items at a depth.
spec fn items_at(items: Seq<ValueView>, n: int, depth: int) -> Seq<(ValueView, int)> {
    Seq::new(n as nat, |i: int| (items[i], depth))
}

/// The values of the first `n` entries at a depth.
spec fn values_at(entries: Seq<(Seq<char>, ValueView)>, n: int, depth: int) -> Seq<(ValueView, int)> {
    Seq::new(n as nat, |i: int| (entries[i].1, depth))
}

spec fn waiting_nodes(pending: Seq<(ValueView, int)>) -> nat
    decreases pending.len(),
{
    if pending.len() == 0 {
        0
    } else {
        waiting_nodes(pending.drop_last()) + nodes(pending.last().0)
    }
}

proof fn lemma_drain_items(
    base: Seq<(ValueView, int)>,
    items: Seq<ValueView>,
    n: int,
    depth: int,
    max_depth: int,
    budget: int,
)
    requires
        0 <= n <= items.len(),
    ensures
        drained(base + items_at(items, n, depth), max_depth, budget) == match measured_items(
            items,
            n,
            depth,
            max_depth,
            budget,
        ) {
            Measured::Left(left) => drained(base, max_depth, left),
            refused => refused,
        },
        waiting_nodes(base + items_at(items, n, depth)) == waiting_nodes(base) + item_nodes(items, n),
    decreases n,
{
    let all = base + items_at(items, n, depth);
    if n == 0 {
        assert(all =~= base);
    } else {
        assert(all.last() == (items[n - 1], depth));
        assert(all.drop_last() =~= base + items_at(items, n - 1, depth));
        lemma_drain_items(base, items, n - 1, depth, max_depth, budget);
        if let Measured::Left(left) = measured(items[n - 1], depth, max_depth, budget) {
            lemma_drain_items(base, items, n - 1, depth, max_depth, left);
        }
    }
}

proof fn lemma_drain_entries(
    base: Seq<(ValueView, int)>,
    entries: Seq<(Seq<char>, ValueView)>,
    n: int,
    depth: int,
    max_depth: int,
    budget: int,
)
    requires
        0 <= n <= entries.len(),
    ensures
        drained(base + values_at(entries, n, depth), max_depth, budget) == match measured_entries(
            entries,
            n,
            depth,
            max_depth,
            budget,
        ) {
            Measured::Left(left) => drained(base, max_depth, left),
            refused => refused,
        },
        waiting_nodes(base + values_at(entries, n, depth)) == waiting_nodes(base) + entry_nodes(entries, n),
    decreases n,
{
    let all = base + values_at(entries, n, depth);
    if n == 0 {
        assert(all =~= base);
    } else {
        assert(all.last() == (entries[n - 1].1, depth));
        assert(all.drop_last() =~= base + values_at(entries, n - 1, depth));
        lemma_drain_entries(base, entries, n - 1, depth, max_depth, budget);
        if let Measured::Left(left) = measured(entries[n - 1].1, depth, max_depth, budget) {
            lemma_drain_entries(base, entries, n - 1, depth, max_depth, left);
        }
    }
}

/// Walk a value without recursion: refuse it if it nests more than `max_depth` arrays or objects
/// deep, or is certain to take more than the bytes left in `budget`, which shrinks by what the value
/// takes. A value that is refused leaves what was left where the walk stopped.
pub fn measure(value: &Value, max_depth: usize, budget: &mut usize) -> (r: Result<(), Unsendable>)
    ensures
        match measured(value@, 0, max_depth as int, *old(budget) as int) {
            Measured::Left(left) => r is Ok && *final(budget) == left,
            Measured::Refused(reason, left) => r == Err::<(), Unsendable>(reason) && *final(budget) == left,
        },
{
    let ghost start = *budget as int;
    let ghost target = measured(value@, 0, max_depth as int, start);
    let mut pending: Vec<(&Value, usize)> = Vec::new();
    pending.push((value, 0));
    proof {
        let all = waiting(pending@);
        assert(all =~= seq![(value@, 0int)]);
        assert(all.drop_last() =~= Seq::empty());
        reveal_with_fuel(drained, 2);
    }
    while pending.len() > 0
        invariant
            target == measured(value@, 0, max_depth as int, start),
            start == *old(budget),
            *budget <= start,
            drained(waiting(pending@), max_depth as int, *budget as int) == target,
            forall|i: int| 0 <= i < pending@.len() ==> (#[trigger] pending@[i]).1 <= max_depth,
        decreases waiting_nodes(waiting(pending@)),
    {
        let ghost all = waiting(pending@);
        let (node, depth) = pending.pop().unwrap();
        let ghost base = waiting(pending@);
        proof {
            assert(all.drop_last() =~= base);
            assert(all.last() == (node@, depth as int));
        }
        let mut bytes: usize = 1;
        match node {
            Value::Null => {},
            Value::Bool(_) => {},
            Value::Number(_) => {},
            Value::String(text) => {
                bytes = bytes.saturating_add(text.as_bytes().len());
            },
            Value::Array(array) => {
                if depth >= max_depth {
                    return Err(Unsendable::TooDeep);
                }
                let mut k: usize = 0;
                proof {
                    assert(waiting(pending@) =~= base + items_at(array@, 0, depth + 1));
                }
                while k < array.len()
                    invariant
                        k <= array@.len(),
                        depth < max_depth,
                        waiting(pending@) == base + items_at(array@, k as int, depth + 1),
                        forall|i: int| 0 <= i < pending@.len() ==> (#[trigger] pending@[i]).1 <= max_depth,
                    decreases array@.len() - k,
                {
                    let ghost before = waiting(pending@);
                    pending.push((array.get(k).unwrap(), depth + 1));
                    proof {
                        assert(waiting(pending@) =~= before.push((array@[k as int], depth + 1)));
                        assert(waiting(pending@) =~= base + items_at(array@, k + 1, depth + 1));
                    }
                    k = k + 1;
                }
                proof {
                    lemma_drain_items(base, array@, k as int, depth + 1, max_depth as int, *budget - 1);
                }
            },
            Value::Object(object) => {
                if depth >= max_depth {
                    return Err(Unsendable::TooDeep);
                }
                let mut k: usize = 0;
                proof {
                    assert(waiting(pending@) =~= base + values_at(object@, 0, depth + 1));
                }
                while k < object.len()
                    invariant
                        k <= object@.len(),
                        depth < max_depth,
                        bytes == capped(1 + key_bytes(object@, k as int)),
                        waiting(pending@) == base + values_at(object@, k as int, depth + 1),
                        forall|i: int| 0 <= i < pending@.len() ==> (#[trigger] pending@[i]).1 <= max_depth,
                    decreases object@.len() - k,
                {
                    let ghost before = waiting(pending@);
                    bytes = bytes.saturating_add(object.key_at(k).as_bytes().len());
                    pending.push((object.value_at(k), depth + 1));
                    proof {
                        assert(waiting(pending@) =~= before.push((object@[k as int].1, depth + 1)));
                        assert(waiting(pending@) =~= base + values_at(object@, k + 1, depth + 1));
                    }
                    k = k + 1;
                }
                proof {
                    lemma_drain_entries(base, object@, k as int, depth + 1, max_depth as int, *budget - bytes);
                }
            },
        }
        proof {
            assert(bytes == capped(least_bytes(node@)));
        }
        if *budget < bytes {
            return Err(Unsendable::TooLarge);
        }
        *budget = *budget - bytes;
    }
    Ok(())
}

/// Walk a Script result against the deepest nesting and the largest frame.
pub fn check_result(result: &Value) -> (r: Result<(), Unsendable>)
    ensures
        match measured(result@, 0, MAX_RESULT_DEPTH as int, MAX_FRAME_LEN as int) {
            Measured::Left(_) => r is Ok,
            Measured::Refused(reason, _) => r == Err::<(), Unsendable>(reason),
        },
{
    let mut budget: usize = MAX_FRAME_LEN;
    measure(result, MAX_RESULT_DEPTH, &mut budget)
}

/// A number on the wire: a whole number within plus or minus 2 to the 53rd as an integer, every other
/// one as a float.
pub open spec fn wired_number(bits: u64) -> WireView {
    match exact_integer(bits) {
        Some(n) => WireView::Integer(n),
        None => WireView::F64(bits),
    }
}

/// A Script value on the wire.
pub open spec fn wired(value: ValueView) -> WireView
    decreases value,
{
    match value {
        ValueView::Null => WireView::Nil,
        ValueView::Bool(b) => WireView::Boolean(b),
        ValueView::Number(bits) => wired_number(bits),
        ValueView::String(text) => WireView::String(text),
        ValueView::Array(items) => WireView::Array(
            Seq::new(
                items.len(),
                |i: int|
                    if 0 <= i < items.len() {
                        wired(items[i])
                    } else {
                        WireView::Nil
                    },
            ),
        ),
        ValueView::Object(entries) => WireView::Pairs(
            Seq::new(
                entries.len(),
                |i: int|
                    if 0 <= i < entries.len() {
                        (WireView::String(entries[i].0), wired(entries[i].1))
                    } else {
                        (WireView::Nil, WireView::Nil)
                    },
            ),
        ),
    }
}

/// Some Script values on the wire.
pub open spec fn wired_items(items: Seq<ValueView>) -> Seq<WireView> {
    Seq::new(items.len(), |i: int| wired(items[i]))
}

/// Some entries on the wire.
pub open spec fn wired_entries(entries: Seq<(Seq<char>, ValueView)>) -> Seq<(WireView, WireView)> {
    Seq::new(entries.len(), |i: int| (WireView::String(entries[i].0), wired(entries[i].1)))
}

/// An array on the wire is its items on the wire, and an object is its entries.
pub proof fn lemma_wired(value: ValueView)
    ensures
        value matches ValueView::Array(items) ==> wired(value) == WireView::Array(wired_items(items)),
        value matches ValueView::Object(entries) ==> wired(value) == WireView::Pairs(wired_entries(entries)),
{
    match value {
        ValueView::Array(items) => {
            assert(wired(value)->Array_0 =~= wired_items(items));
        },
        ValueView::Object(entries) => {
            assert(wired(value)->Pairs_0 =~= wired_entries(entries));
        },
        _ => {},
    }
}

fn number_to_wire(number: Number) -> (r: Wire)
    ensures
        r@ == wired_number(number.bits()),
{
    match number.exact_integer() {
        Some(n) => Wire::integer(n),
        None => Wire::F64(number.to_bits()),
    }
}

/// Convert a Script value for the wire.
pub fn to_wire(value: &Value) -> (r: Wire)
    ensures
        r@ == wired(value@),
    decreases value@,
{
    broadcast use lemma_wire_items;

    proof {
        lemma_wired(value@);
    }
    match value {
        Value::Null => Wire::Nil,
        Value::Bool(b) => Wire::Boolean(*b),
        Value::Number(number) => number_to_wire(*number),
        Value::String(text) => Wire::text(text),
        Value::Array(array) => {
            let mut items: Vec<Wire> = Vec::new();
            let mut k: usize = 0;
            while k < array.len()
                invariant
                    k <= array@.len(),
                    items@.len() == k,
                    value@ == ValueView::Array(array@),
                    forall|j: int| 0 <= j < k ==> (#[trigger] items@[j])@ == wired(array@[j]),
                decreases array@.len() - k,
            {
                proof {
                    assert(decreases_to!(value@ => value@->Array_0));
                    assert(decreases_to!(value@->Array_0 => value@->Array_0[k as int]));
                }
                items.push(to_wire(array.get(k).unwrap()));
                k = k + 1;
            }
            proof {
                assert(items_view(items@) =~= wired_items(array@));
            }
            let r = Wire::Array(items);
            assert(r@ == wired(value@));
            r
        },
        Value::Object(object) => {
            let mut pairs: Vec<(Wire, Wire)> = Vec::new();
            let mut k: usize = 0;
            while k < object.len()
                invariant
                    k <= object@.len(),
                    pairs@.len() == k,
                    value@ == ValueView::Object(object@),
                    forall|j: int|
                        0 <= j < k ==> (#[trigger] pairs@[j]).0@ == WireView::String(object@[j].0) && pairs@[j].1@
                            == wired(object@[j].1),
                decreases object@.len() - k,
            {
                proof {
                    assert(decreases_to!(value@ => value@->Object_0));
                    assert(decreases_to!(value@->Object_0 => value@->Object_0[k as int]));
                    assert(decreases_to!(value@->Object_0[k as int] => value@->Object_0[k as int].1));
                }
                let key = Wire::text(object.key_at(k));
                let item = to_wire(object.value_at(k));
                pairs.push((key, item));
                k = k + 1;
            }
            proof {
                assert(pairs_view(pairs@) =~= wired_entries(object@));
            }
            let r = Wire::Pairs(pairs);
            assert(r@ == wired(value@));
            r
        },
    }
}

/// How many bytes a Script value takes on the wire without what it holds: its own form, and the keys
/// of an object.
pub open spec fn own_size(value: ValueView) -> nat {
    match value {
        ValueView::Number(bits) => match exact_integer(bits) {
            Some(n) => integer_len(n),
            None => 9,
        },
        ValueView::String(text) => string_len(encode_utf8(text).len()),
        ValueView::Array(items) => header_len(items.len()),
        ValueView::Object(entries) => header_len(entries.len()) + keys_size(entries, entries.len() as int),
        _ => 1,
    }
}

/// How many bytes the first `n` keys take on the wire.
pub open spec fn keys_size(entries: Seq<(Seq<char>, ValueView)>, n: int) -> nat
    decreases n,
{
    if n <= 0 || n > entries.len() {
        0
    } else {
        keys_size(entries, n - 1) + string_len(encode_utf8(entries[n - 1].0).len())
    }
}

/// How many bytes a Script value takes on the wire.
pub open spec fn wire_size(value: ValueView) -> nat
    decreases value, 0int,
{
    own_size(value) + match value {
        ValueView::Array(items) => items_size(items, items.len() as int),
        ValueView::Object(entries) => values_size(entries, entries.len() as int),
        _ => 0,
    }
}

/// How many bytes the first `n` items take on the wire.
pub open spec fn items_size(items: Seq<ValueView>, n: int) -> nat
    decreases items, n,
{
    if n <= 0 || n > items.len() {
        0
    } else {
        items_size(items, n - 1) + wire_size(items[n - 1])
    }
}

/// How many bytes the values of the first `n` entries take on the wire.
pub open spec fn values_size(entries: Seq<(Seq<char>, ValueView)>, n: int) -> nat
    decreases entries, n,
{
    if n <= 0 || n > entries.len() {
        0
    } else {
        values_size(entries, n - 1) + wire_size(entries[n - 1].1)
    }
}

/// The payload that carries a Script result.
pub open spec fn result_payload(value: ValueView) -> WireView {
    WireView::Pairs(seq![(WireView::String("value"@), wired(value))])
}

fn str_size(len: usize) -> (r: usize)
    requires
        len <= usize::MAX - 5,
    ensures
        r == string_len(len as nat),
{
    let header: usize = if len < 32 {
        1
    } else if len <= 0xff {
        2
    } else if len <= 0xffff {
        3
    } else {
        5
    };
    header + len
}

/// [`str_size`], capped.
fn text_size(text: &str) -> (r: usize)
    ensures
        r == capped(string_len(encode_utf8(text@).len())),
{
    let len: usize = text.as_bytes().len();
    if len <= usize::MAX - 5 {
        str_size(len)
    } else {
        usize::MAX
    }
}

fn container_size(len: usize) -> (r: usize)
    ensures
        r == header_len(len as nat),
{
    if len < 16 {
        1
    } else if len <= 0xffff {
        3
    } else {
        5
    }
}

fn number_size(number: Number) -> (r: usize)
    ensures
        r == own_size(ValueView::Number(number.bits())),
{
    match number.exact_integer() {
        Some(n) => if -32 <= n && n <= 0x7f {
            1
        } else if -128 <= n && n <= 0xff {
            2
        } else if -32_768 <= n && n <= 0xffff {
            3
        } else if -2_147_483_648 <= n && n <= 0xffff_ffff {
            5
        } else {
            9
        },
        None => 9,
    }
}

spec fn listed(pending: Seq<&Value>) -> Seq<ValueView> {
    Seq::new(pending.len(), |i: int| pending[i]@)
}

/// What some values take on the wire.
spec fn listed_size(values: Seq<ValueView>) -> nat
    decreases values.len(),
{
    if values.len() == 0 {
        0
    } else {
        listed_size(values.drop_last()) + wire_size(values.last())
    }
}

spec fn listed_nodes(values: Seq<ValueView>) -> nat
    decreases values.len(),
{
    if values.len() == 0 {
        0
    } else {
        listed_nodes(values.drop_last()) + nodes(values.last())
    }
}

proof fn lemma_list_items(base: Seq<ValueView>, items: Seq<ValueView>, n: int)
    requires
        0 <= n <= items.len(),
    ensures
        listed_size(base + items.take(n)) == listed_size(base) + items_size(items, n),
        listed_nodes(base + items.take(n)) == listed_nodes(base) + item_nodes(items, n),
    decreases n,
{
    let all = base + items.take(n);
    if n == 0 {
        assert(all =~= base);
    } else {
        assert(all.drop_last() =~= base + items.take(n - 1));
        assert(all.last() == items[n - 1]);
        lemma_list_items(base, items, n - 1);
    }
}

spec fn values_of(entries: Seq<(Seq<char>, ValueView)>, n: int) -> Seq<ValueView> {
    Seq::new(n as nat, |i: int| entries[i].1)
}

proof fn lemma_list_entries(base: Seq<ValueView>, entries: Seq<(Seq<char>, ValueView)>, n: int)
    requires
        0 <= n <= entries.len(),
    ensures
        listed_size(base + values_of(entries, n)) == listed_size(base) + values_size(entries, n),
        listed_nodes(base + values_of(entries, n)) == listed_nodes(base) + entry_nodes(entries, n),
    decreases n,
{
    let all = base + values_of(entries, n);
    if n == 0 {
        assert(all =~= base);
    } else {
        assert(all.drop_last() =~= base + values_of(entries, n - 1));
        assert(all.last() == entries[n - 1].1);
        lemma_list_entries(base, entries, n - 1);
    }
}

/// The number of bytes that a Script result takes on the wire in its payload: the map, its one key
/// and the value. Once the count passes `limit` the walk stops, and some count past the limit comes
/// back.
pub fn payload_size(value: &Value, limit: usize) -> (r: usize)
    ensures
        7 + wire_size(value@) <= limit ==> r == 7 + wire_size(value@),
        7 + wire_size(value@) > limit ==> r > limit || r == usize::MAX,
        r <= 7 + wire_size(value@),
{
    let ghost total = 7 + wire_size(value@);
    let mut size: usize = 1 + str_size(5);
    let ghost mut counted: nat = 7;
    let mut pending: Vec<&Value> = Vec::new();
    pending.push(value);
    proof {
        let all = listed(pending@);
        assert(all =~= seq![value@]);
        assert(all.drop_last() =~= Seq::empty());
        reveal_with_fuel(listed_size, 2);
    }
    while pending.len() > 0
        invariant
            total == 7 + wire_size(value@),
            size == capped(counted),
            counted + listed_size(listed(pending@)) == total,
        decreases listed_nodes(listed(pending@)),
    {
        if size > limit {
            return size;
        }
        let ghost all = listed(pending@);
        let node = pending.pop().unwrap();
        let ghost base = listed(pending@);
        proof {
            assert(all.drop_last() =~= base);
            assert(all.last() == node@);
        }
        let bytes: usize = match node {
            Value::Null => 1,
            Value::Bool(_) => 1,
            Value::Number(number) => number_size(*number),
            Value::String(text) => text_size(text),
            Value::Array(array) => {
                let mut k: usize = 0;
                proof {
                    assert(listed(pending@) =~= base + array@.take(0));
                }
                while k < array.len()
                    invariant
                        k <= array@.len(),
                        listed(pending@) == base + array@.take(k as int),
                    decreases array@.len() - k,
                {
                    let ghost before = listed(pending@);
                    pending.push(array.get(k).unwrap());
                    proof {
                        assert(listed(pending@) =~= before.push(array@[k as int]));
                        assert(listed(pending@) =~= base + array@.take(k + 1));
                    }
                    k = k + 1;
                }
                proof {
                    lemma_list_items(base, array@, k as int);
                }
                container_size(k)
            },
            Value::Object(object) => {
                let mut bytes: usize = 0;
                let mut k: usize = 0;
                proof {
                    assert(listed(pending@) =~= base + values_of(object@, 0));
                }
                while k < object.len()
                    invariant
                        k <= object@.len(),
                        bytes == capped(keys_size(object@, k as int)),
                        listed(pending@) == base + values_of(object@, k as int),
                    decreases object@.len() - k,
                {
                    let ghost before = listed(pending@);
                    bytes = bytes.saturating_add(text_size(object.key_at(k)));
                    pending.push(object.value_at(k));
                    proof {
                        assert(listed(pending@) =~= before.push(object@[k as int].1));
                        assert(listed(pending@) =~= base + values_of(object@, k + 1));
                    }
                    k = k + 1;
                }
                proof {
                    lemma_list_entries(base, object@, k as int);
                }
                bytes.saturating_add(container_size(k))
            },
        };
        proof {
            assert(bytes == capped(own_size(node@)));
            counted = counted + own_size(node@);
        }
        size = size.saturating_add(bytes);
    }
    size
}

} // verus!
