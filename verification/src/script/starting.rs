//! What an `ExecutionStart` hands over, and what is sent back.

use vstd::prelude::*;
use crate::exec::wire::Converted;
use crate::exec::wire::SegmentView;
use crate::exec::wire::converted;
use crate::exec::wire::wired;
use crate::fields::PairView;
use crate::fields::two_fields;
use crate::interpreter::value::ValueView;
use crate::script::Replied;
use crate::script::StartView;
use crate::script::decoded_start;
use crate::script::decoded_variable;
use crate::script::decoded_variables;
use crate::script::identifier;
use crate::script::replied;
use crate::session::accepting::has_field;
use crate::session::accepting::lemma_single;
use crate::session::accepting::lemma_two_fields;
use crate::session::accepting::only;
use crate::table::has_key;
use crate::wire::WireView;

verus! {

/// A name that a Script can use for a variable: letters, digits and `_`, not starting with a digit, and no reserved
/// word.
pub proof fn law_identifiers(text: Seq<char>, reserved: Seq<String>)
    ensures
        identifier(text, reserved) <==> text.len() > 0 && (forall|i: int|
            0 <= i < text.len() ==> 'a' <= #[trigger] text[i] <= 'z' || 'A' <= text[i] <= 'Z' || text[i] == '_' || '0' <= text[i]
                <= '9') && !('0' <= text[0] <= '9') && forall|i: int|
            0 <= i < reserved.len() ==> (#[trigger] reserved[i])@ != text,
{
    if identifier(text, reserved) {
        assert forall|i: int| 0 <= i < reserved.len() implies (#[trigger] reserved[i])@ != text by {}
    }
    if text.len() > 0 {
        assert('a' <= text[0] <= 'z' || 'A' <= text[0] <= 'Z' || text[0] == '_' || '0' <= text[0] <= '9' || !identifier(
            text,
            reserved,
        ));
    }
}

/// Whether a pair of a payload starts a Script with a variable.
pub open spec fn starts(pair: (WireView, WireView), reserved: Seq<String>, variable: (Seq<char>, ValueView)) -> bool {
    pair.0 == WireView::String(variable.0) && identifier(variable.0, reserved) && converted(
        pair.1,
        seq![SegmentView::Key(variable.0)],
    ) == Converted::Value(variable.1)
}

proof fn lemma_variables(pairs: Seq<(WireView, WireView)>, reserved: Seq<String>, n: int, list: Seq<(Seq<char>, ValueView)>)
    requires
        0 <= n <= pairs.len(),
    ensures
        decoded_variables(pairs, reserved, n) == Ok::<Seq<(Seq<char>, ValueView)>, Seq<char>>(list) <==> list.len() == n && (
        forall|i: int| 0 <= i < n ==> starts(pairs[i], reserved, #[trigger] list[i])) && forall|i: int, j: int|
            0 <= i < j < n ==> (#[trigger] list[i]).0 != (#[trigger] list[j]).0,
    decreases n,
{
    if n > 0 {
        if list.len() == n {
            let before = list.drop_last();
            lemma_variables(pairs, reserved, n - 1, before);
            assert(before.push(list.last()) =~= list);
            assert forall|i: int| 0 <= i < n - 1 implies #[trigger] before[i] == list[i] by {}
            if decoded_variables(pairs, reserved, n) == Ok::<Seq<(Seq<char>, ValueView)>, Seq<char>>(list) {
                let so_far = decoded_variables(pairs, reserved, n - 1)->Ok_0;
                let last = decoded_variable(pairs[n - 1], reserved, so_far)->Ok_0;
                assert(so_far.push(last).drop_last() =~= so_far);
                assert(so_far == before);
                assert(last == list.last());
                assert forall|i: int| 0 <= i < n implies starts(pairs[i], reserved, #[trigger] list[i]) by {
                    if i < n - 1 {
                        assert(before[i] == list[i]);
                    }
                }
                assert forall|i: int, j: int| 0 <= i < j < n implies (#[trigger] list[i]).0 != (#[trigger] list[j]).0 by {
                    assert(before[i] == list[i]);
                    if j < n - 1 {
                        assert(before[j] == list[j]);
                    }
                }
            } else if (forall|i: int| 0 <= i < n ==> starts(pairs[i], reserved, #[trigger] list[i])) && forall|i: int, j: int|
                0 <= i < j < n ==> (#[trigger] list[i]).0 != (#[trigger] list[j]).0 {
                assert(starts(pairs[n - 1], reserved, list[n - 1]));
                assert forall|i: int| 0 <= i < n - 1 implies starts(pairs[i], reserved, #[trigger] before[i]) by {
                    assert(before[i] == list[i]);
                }
                assert forall|i: int, j: int| 0 <= i < j < n - 1 implies (#[trigger] before[i]).0 != (#[trigger] before[j]).0 by {
                    assert(list[i].0 != list[j].0);
                }
                if has_key(before, list.last().0) {
                    let i = choose|i: int| 0 <= i < before.len() && (#[trigger] before[i]).0 == list.last().0;
                    assert(list[i].0 != list[n - 1].0);
                }
            }
        } else if decoded_variables(pairs, reserved, n) == Ok::<Seq<(Seq<char>, ValueView)>, Seq<char>>(list) {
            let so_far = decoded_variables(pairs, reserved, n - 1)->Ok_0;
            lemma_variables(pairs, reserved, n - 1, so_far);
        }
    } else if list.len() == 0 {
        assert(list =~= Seq::empty());
    }
}

/// Whether a list is the starting variables that some pairs say, in order and each name once.
pub open spec fn starts_all(pairs: Seq<(WireView, WireView)>, reserved: Seq<String>, list: Seq<(Seq<char>, ValueView)>) -> bool {
    &&& list.len() == pairs.len()
    &&& forall|i: int| 0 <= i < list.len() ==> starts(pairs[i], reserved, #[trigger] list[i])
    &&& forall|i: int, j: int| 0 <= i < j < list.len() ==> (#[trigger] list[i]).0 != (#[trigger] list[j]).0
}

/// An `ExecutionStart` is accepted exactly when its payload is a map with a text under `source` and a map of
/// starting variables under `variables`; what is handed over is that text and those variables, in their order.
pub proof fn law_start_hands_over(payload: WireView, reserved: Seq<String>, start: StartView)
    ensures
        decoded_start(payload, reserved) == Ok::<StartView, Seq<char>>(start) <==> (payload matches WireView::Pairs(fields) && only(
            fields,
            "source"@,
            "variables"@,
        ) && has_field(fields, "source"@, WireView::String(start.source)) && exists|pairs: Seq<(WireView, WireView)>|
            #[trigger] has_field(fields, "variables"@, WireView::Pairs(pairs)) && starts_all(pairs, reserved, start.variables)),
{
    reveal_strlit("source");
    reveal_strlit("variables");
    assert("source"@.len() != "variables"@.len());
    if let WireView::Pairs(fields) = payload {
        lemma_two_fields(fields, "source"@, "variables"@, fields.len() as int);
        assert(fields.take(fields.len() as int) =~= fields);
        if let PairView::Fields(s, v) = two_fields(fields, "source"@, "variables"@, fields.len() as int) {
            if has_field(fields, "source"@, WireView::String(start.source)) {
                lemma_single(fields, "source"@, "variables"@, "source"@, s, Some(WireView::String(start.source)));
            }
            if let Some(WireView::Pairs(pairs)) = v {
                lemma_variables(pairs, reserved, pairs.len() as int, start.variables);
            }
            if decoded_start(payload, reserved) == Ok::<StartView, Seq<char>>(start) {
                assert(has_field(fields, "variables"@, WireView::Pairs(v->0->Pairs_0)));
            }
            if exists|pairs: Seq<(WireView, WireView)>|
                #[trigger] has_field(fields, "variables"@, WireView::Pairs(pairs)) && starts_all(pairs, reserved, start.variables) {
                let pairs = choose|pairs: Seq<(WireView, WireView)>|
                    #[trigger] has_field(fields, "variables"@, WireView::Pairs(pairs)) && starts_all(
                        pairs,
                        reserved,
                        start.variables,
                    );
                lemma_single(fields, "source"@, "variables"@, "variables"@, v, Some(WireView::Pairs(pairs)));
                lemma_variables(pairs, reserved, pairs.len() as int, start.variables);
            }
        }
    } else if payload is Nil {
        assert(two_fields(Seq::empty(), "source"@, "variables"@, 0) == PairView::Fields(None, None));
    }
}

/// A result that can be sent is answered with itself, on the wire, under `value`; one that cannot is answered with an
/// error.
pub proof fn law_result_is_answered(result: ValueView)
    ensures
        match replied(result) {
            Replied::Payload(payload) => payload == WireView::Pairs(seq![(WireView::String("value"@), wired(result))]),
            Replied::Failure(body) => body.severity == "error"@ && (body.code == "protocol.result_too_deep"@ || body.code
                == "protocol.response_too_large"@ || body.code == "type.function_result"@),
        },
{
}

} // verus!
