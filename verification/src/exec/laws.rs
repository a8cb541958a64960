//! What holds of values that cross the wire.

use vstd::prelude::*;
use vstd::utf8::encode_utf8;
use vstd::utf8::is_ascii_chars;
use vstd::utf8::is_ascii_chars_encode_utf8;
use crate::envelope::EnvelopeView;
use crate::exec::wire::Converted;
use crate::exec::wire::MAX_RESULT_DEPTH;
use crate::exec::wire::Measured;
use crate::exec::wire::SegmentView;
use crate::exec::wire::capped;
use crate::exec::wire::converted;
use crate::exec::wire::converted_items;
use crate::exec::wire::converted_pairs;
use crate::exec::wire::items_size;
use crate::exec::wire::key_before;
use crate::exec::wire::key_bytes;
use crate::exec::wire::keys_size;
use crate::exec::wire::least_bytes;
use crate::exec::wire::lemma_wired;
use crate::exec::wire::measured;
use crate::exec::wire::measured_entries;
use crate::exec::wire::measured_items;
use crate::exec::wire::result_payload;
use crate::exec::wire::values_size;
use crate::exec::wire::wire_size;
use crate::exec::wire::wired;
use crate::exec::wire::wired_entries;
use crate::exec::wire::wired_items;
use crate::interpreter::finite::regular;
use crate::interpreter::value::ValueView;
use crate::message_pack::encoded_len;
use crate::message_pack::items_len;
use crate::message_pack::pairs_len;
use crate::message_pack::string_len;
use crate::number::SIGN;
use crate::number::exact_integer;
use crate::number::law_exact_integer_bits;
use crate::number::law_negative_zero_is_zero;
use crate::port::codec::MAX_NESTING_DEPTH;
use crate::table::distinct;
use crate::wire::WireView;
use crate::wire::items_nesting;
use crate::wire::nesting;
use crate::wire::pairs_nesting;

verus! {

/// How many arrays and objects deep a value nests.
pub open spec fn levels(value: ValueView) -> nat
    decreases value, 0int,
{
    match value {
        ValueView::Array(items) => 1 + items_levels(items, items.len() as int),
        ValueView::Object(entries) => 1 + entries_levels(entries, entries.len() as int),
        _ => 0,
    }
}

/// How deep the deepest of the first `n` items nests.
pub open spec fn items_levels(items: Seq<ValueView>, n: int) -> nat
    decreases items, n,
{
    if n <= 0 || n > items.len() {
        0
    } else if items_levels(items, n - 1) < levels(items[n - 1]) {
        levels(items[n - 1])
    } else {
        items_levels(items, n - 1)
    }
}

/// How deep the deepest of the first `n` entries nests.
pub open spec fn entries_levels(entries: Seq<(Seq<char>, ValueView)>, n: int) -> nat
    decreases entries, n,
{
    if n <= 0 || n > entries.len() {
        0
    } else if entries_levels(entries, n - 1) < levels(entries[n - 1].1) {
        levels(entries[n - 1].1)
    } else {
        entries_levels(entries, n - 1)
    }
}

/// How many bytes a value takes at the least, with everything that it holds.
pub open spec fn least_size(value: ValueView) -> nat
    decreases value, 0int,
{
    least_bytes(value) + match value {
        ValueView::Array(items) => items_least(items, items.len() as int),
        ValueView::Object(entries) => entries_least(entries, entries.len() as int),
        _ => 0,
    }
}

pub open spec fn items_least(items: Seq<ValueView>, n: int) -> nat
    decreases items, n,
{
    if n <= 0 || n > items.len() {
        0
    } else {
        items_least(items, n - 1) + least_size(items[n - 1])
    }
}

pub open spec fn entries_least(entries: Seq<(Seq<char>, ValueView)>, n: int) -> nat
    decreases entries, n,
{
    if n <= 0 || n > entries.len() {
        0
    } else {
        entries_least(entries, n - 1) + least_size(entries[n - 1].1)
    }
}

/// Whether a measure says that a value of this depth and size fits.
spec fn says(outcome: Measured, fits: bool, left: int) -> bool {
    if fits {
        outcome == Measured::Left(left)
    } else {
        outcome is Refused
    }
}

/// A value is accepted exactly when it nests no deeper than the limit and its least size fits the
/// bytes left, and then it takes its least size.
pub proof fn law_measured(value: ValueView, depth: int, max_depth: int, budget: int)
    requires
        0 <= depth,
        0 <= budget < usize::MAX,
    ensures
        (levels(value) == 0 || depth + levels(value) <= max_depth) && least_size(value) <= budget ==> measured(
            value,
            depth,
            max_depth,
            budget,
        ) == Measured::Left(budget - least_size(value)),
        !((levels(value) == 0 || depth + levels(value) <= max_depth) && least_size(value) <= budget) ==> measured(
            value,
            depth,
            max_depth,
            budget,
        ) is Refused,
    decreases value, 0int,
{
    let left = budget - capped(least_bytes(value));
    match value {
        ValueView::Array(items) => {
            if depth < max_depth && left >= 0 {
                lemma_measured_items(items, items.len() as int, depth + 1, max_depth, left);
            }
        },
        ValueView::Object(entries) => {
            if depth < max_depth && left >= 0 {
                lemma_measured_entries(entries, entries.len() as int, depth + 1, max_depth, left);
            }
        },
        _ => {},
    }
}

proof fn lemma_measured_items(items: Seq<ValueView>, n: int, depth: int, max_depth: int, budget: int)
    requires
        0 <= n <= items.len(),
        0 <= depth,
        0 <= budget < usize::MAX,
    ensures
        says(
            measured_items(items, n, depth, max_depth, budget),
            (items_levels(items, n) == 0 || depth + items_levels(items, n) <= max_depth) && items_least(items, n) <= budget,
            budget - items_least(items, n),
        ),
    decreases items, n,
{
    if n > 0 {
        law_measured(items[n - 1], depth, max_depth, budget);
        if let Measured::Left(left) = measured(items[n - 1], depth, max_depth, budget) {
            lemma_measured_items(items, n - 1, depth, max_depth, left);
        }
    }
}

proof fn lemma_measured_entries(entries: Seq<(Seq<char>, ValueView)>, n: int, depth: int, max_depth: int, budget: int)
    requires
        0 <= n <= entries.len(),
        0 <= depth,
        0 <= budget < usize::MAX,
    ensures
        says(
            measured_entries(entries, n, depth, max_depth, budget),
            (entries_levels(entries, n) == 0 || depth + entries_levels(entries, n) <= max_depth) && entries_least(entries, n)
                <= budget,
            budget - entries_least(entries, n),
        ),
    decreases entries, n,
{
    if n > 0 {
        law_measured(entries[n - 1].1, depth, max_depth, budget);
        if let Measured::Left(left) = measured(entries[n - 1].1, depth, max_depth, budget) {
            lemma_measured_entries(entries, n - 1, depth, max_depth, left);
        }
    }
}

proof fn lemma_key_bytes(entries: Seq<(Seq<char>, ValueView)>, n: int)
    ensures
        key_bytes(entries, n) <= keys_size(entries, n),
    decreases n,
{
    if 0 < n <= entries.len() {
        lemma_key_bytes(entries, n - 1);
    }
}

/// The least size never exceeds the size: a value that would have fit is never refused for its
/// size.
pub proof fn law_least_size(value: ValueView)
    ensures
        least_size(value) <= wire_size(value),
    decreases value, 0int,
{
    match value {
        ValueView::Array(items) => {
            lemma_least_items(items, items.len() as int);
        },
        ValueView::Object(entries) => {
            lemma_key_bytes(entries, entries.len() as int);
            lemma_least_entries(entries, entries.len() as int);
        },
        _ => {},
    }
}

proof fn lemma_least_items(items: Seq<ValueView>, n: int)
    requires
        0 <= n <= items.len(),
    ensures
        items_least(items, n) <= items_size(items, n),
    decreases items, n,
{
    if n > 0 {
        lemma_least_items(items, n - 1);
        law_least_size(items[n - 1]);
    }
}

proof fn lemma_least_entries(entries: Seq<(Seq<char>, ValueView)>, n: int)
    requires
        0 <= n <= entries.len(),
    ensures
        entries_least(entries, n) <= values_size(entries, n),
    decreases entries, n,
{
    if n > 0 {
        lemma_least_entries(entries, n - 1);
        law_least_size(entries[n - 1].1);
    }
}

proof fn lemma_encoded(value: ValueView)
    ensures
        encoded_len(wired(value)) == wire_size(value),
    decreases value, 0int,
{
    lemma_wired(value);
    match value {
        ValueView::Array(items) => {
            lemma_encoded_items(items, items.len() as int);
        },
        ValueView::Object(entries) => {
            lemma_encoded_entries(entries, entries.len() as int);
        },
        _ => {},
    }
}

proof fn lemma_encoded_items(items: Seq<ValueView>, n: int)
    requires
        0 <= n <= items.len(),
    ensures
        items_len(wired_items(items), n) == items_size(items, n),
    decreases items, n,
{
    if n > 0 {
        lemma_encoded_items(items, n - 1);
        lemma_encoded(items[n - 1]);
    }
}

proof fn lemma_encoded_entries(entries: Seq<(Seq<char>, ValueView)>, n: int)
    requires
        0 <= n <= entries.len(),
    ensures
        pairs_len(wired_entries(entries), n) == keys_size(entries, n) + values_size(entries, n),
    decreases entries, n,
{
    if n > 0 {
        lemma_encoded_entries(entries, n - 1);
        lemma_encoded(entries[n - 1].1);
        assert(encoded_len(wired_entries(entries)[n - 1].0) == string_len(encode_utf8(entries[n - 1].0).len()));
    }
}

/// The size counted for a Script result is the number of bytes that its payload takes when it is
/// encoded.
pub proof fn law_payload_size(value: ValueView)
    ensures
        encoded_len(result_payload(value)) == 7 + wire_size(value),
{
    lemma_encoded(value);
    reveal_strlit("value");
    assert(is_ascii_chars("value"@));
    is_ascii_chars_encode_utf8("value"@);
    let pairs = result_payload(value)->Pairs_0;
    reveal_with_fuel(pairs_len, 2);
    assert(pairs.len() == 1);
    assert(encoded_len(pairs[0].0) == 6);
    assert(pairs_len(pairs, 1) == 6 + wire_size(value));
}

proof fn lemma_nesting(value: ValueView)
    ensures
        nesting(wired(value)) == levels(value),
    decreases value, 0int,
{
    lemma_wired(value);
    match value {
        ValueView::Array(items) => {
            lemma_items_nesting(items, items.len() as int);
        },
        ValueView::Object(entries) => {
            lemma_entries_nesting(entries, entries.len() as int);
        },
        _ => {},
    }
}

proof fn lemma_items_nesting(items: Seq<ValueView>, n: int)
    requires
        0 <= n <= items.len(),
    ensures
        items_nesting(wired_items(items), n) == items_levels(items, n),
    decreases items, n,
{
    if n > 0 {
        lemma_items_nesting(items, n - 1);
        lemma_nesting(items[n - 1]);
    }
}

proof fn lemma_entries_nesting(entries: Seq<(Seq<char>, ValueView)>, n: int)
    requires
        0 <= n <= entries.len(),
    ensures
        pairs_nesting(wired_entries(entries), n) == entries_levels(entries, n),
    decreases entries, n,
{
    if n > 0 {
        lemma_entries_nesting(entries, n - 1);
        lemma_nesting(entries[n - 1].1);
        assert(nesting(wired_entries(entries)[n - 1].0) == 0);
    }
}

/// A result that was accepted travels in a message that a peer with the same limit can read.
pub proof fn law_result_is_readable(value: ValueView, envelope: EnvelopeView)
    requires
        measured(value, 0, MAX_RESULT_DEPTH as int, crate::port::frame::MAX_FRAME_LEN as int) is Left,
        envelope.payload == result_payload(value),
    ensures
        nesting(envelope.body()) <= MAX_NESTING_DEPTH,
{
    law_measured(value, 0, MAX_RESULT_DEPTH as int, crate::port::frame::MAX_FRAME_LEN as int);
    lemma_nesting(value);
    let payload = result_payload(value)->Pairs_0;
    reveal_with_fuel(pairs_nesting, 4);
    assert(payload.len() == 1 && nesting(payload[0].0) == 0);
    assert(pairs_nesting(payload, 1) == levels(value));
    assert(nesting(envelope.payload) == 1 + levels(value));
    let pairs = envelope.body()->Pairs_0;
    assert(pairs.len() == 3);
    assert(nesting(pairs[0].0) == 0 && nesting(pairs[0].1) == 0);
    assert(nesting(pairs[1].0) == 0 && nesting(pairs[1].1) == 0);
    assert(nesting(pairs[2].0) == 0);
    assert(pairs_nesting(pairs, 1) == 0);
    assert(pairs_nesting(pairs, 2) == 0);
    assert(pairs_nesting(pairs, 3) == nesting(envelope.payload));
}

/// Whether `other` is `value`, with zero wherever `value` has the negative zero.
pub open spec fn same_but_zero(value: ValueView, other: ValueView) -> bool
    decreases value,
{
    match (value, other) {
        (ValueView::Number(a), ValueView::Number(b)) => b == (if a == SIGN { 0 } else { a }),
        (ValueView::Array(a), ValueView::Array(b)) => a.len() == b.len() && forall|i: int|
            0 <= i < a.len() ==> same_but_zero(#[trigger] a[i], b[i]),
        (ValueView::Object(a), ValueView::Object(b)) => a.len() == b.len() && forall|i: int|
            0 <= i < a.len() ==> (#[trigger] a[i]).0 == b[i].0 && same_but_zero(a[i].1, b[i].1),
        _ => value == other,
    }
}

/// A value sent and received is the value that was sent, but for the negative zero, which travels as
/// zero.
pub proof fn law_wire_round_trip(value: ValueView, at: Seq<SegmentView>)
    requires
        regular(value),
        at.len() + levels(value) <= MAX_NESTING_DEPTH,
    ensures
        converted(wired(value), at) matches Converted::Value(back) && same_but_zero(value, back),
    decreases value, 0int,
{
    lemma_wired(value);
    match value {
        ValueView::Number(bits) => {
            if bits == SIGN {
                law_negative_zero_is_zero();
            } else if exact_integer(bits) is Some {
                law_exact_integer_bits(bits);
            }
        },
        ValueView::Array(items) => {
            lemma_round_trip_items(items, at, items.len() as int);
        },
        ValueView::Object(entries) => {
            lemma_round_trip_entries(entries, at, entries.len() as int);
        },
        _ => {},
    }
}

proof fn lemma_round_trip_items(items: Seq<ValueView>, at: Seq<SegmentView>, n: int)
    requires
        0 <= n <= items.len(),
        forall|i: int| 0 <= i < items.len() ==> regular(#[trigger] items[i]),
        at.len() + 1 + items_levels(items, n) <= MAX_NESTING_DEPTH,
    ensures
        converted_items(wired_items(items), at, n) matches Ok(back) && back.len() == n && forall|i: int|
            0 <= i < n ==> same_but_zero(#[trigger] items[i], back[i]),
    decreases items, n,
{
    if n > 0 {
        lemma_round_trip_items(items, at, n - 1);
        law_wire_round_trip(items[n - 1], at.push(SegmentView::Index((n - 1) as nat)));
    }
}

proof fn lemma_round_trip_entries(entries: Seq<(Seq<char>, ValueView)>, at: Seq<SegmentView>, n: int)
    requires
        0 <= n <= entries.len(),
        distinct(entries),
        forall|i: int| 0 <= i < entries.len() ==> regular((#[trigger] entries[i]).1),
        at.len() + 1 + entries_levels(entries, n) <= MAX_NESTING_DEPTH,
    ensures
        converted_pairs(wired_entries(entries), at, n) matches Ok(back) && back.len() == n && forall|i: int|
            0 <= i < n ==> (#[trigger] entries[i]).0 == back[i].0 && same_but_zero(entries[i].1, back[i].1),
    decreases entries, n,
{
    if n > 0 {
        lemma_round_trip_entries(entries, at, n - 1);
        let pairs = wired_entries(entries);
        let key = entries[n - 1].0;
        law_wire_round_trip(entries[n - 1].1, at.push(SegmentView::Key(key)));
        if key_before(pairs, key, n - 1) {
            let i = choose|i: int| 0 <= i < n - 1 && (#[trigger] pairs[i]).0 == WireView::String(key);
            assert(entries[i].0 != entries[n - 1].0);
        }
    }
}

/// Every value that is accepted for sending comes back, as a host call's reply or as a starting
/// variable: the conversion succeeds, at the path that it began with.
pub proof fn law_accepted_values_come_back(value: ValueView, at: Seq<SegmentView>, budget: int)
    requires
        regular(value),
        0 <= budget < usize::MAX,
        measured(value, 0, MAX_RESULT_DEPTH as int, budget) is Left,
        at.len() <= 1,
    ensures
        converted(wired(value), at) matches Converted::Value(back) && same_but_zero(value, back),
{
    law_measured(value, 0, MAX_RESULT_DEPTH as int, budget);
    law_wire_round_trip(value, at);
}

} // verus!
