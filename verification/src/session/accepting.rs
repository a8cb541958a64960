//! What an `Init` hands over.

use vstd::prelude::*;
use crate::fields::PairView;
use crate::fields::two_fields;
use crate::session::init::decoded_entries;
use crate::session::init::decoded_entry;
use crate::session::init::decoded_init;
use crate::table::has_key;
use crate::wire::WireView;

verus! {

/// Whether pairs have only these two keys, each at most once.
pub open spec fn only(fields: Seq<(WireView, WireView)>, a: Seq<char>, b: Seq<char>) -> bool {
    &&& forall|i: int|
        0 <= i < fields.len() ==> (#[trigger] fields[i]).0 == WireView::String(a) || fields[i].0 == WireView::String(b)
    &&& forall|i: int, j: int| 0 <= i < j < fields.len() ==> (#[trigger] fields[i]).0 != (#[trigger] fields[j]).0
}

/// Whether a map holds a value under a key.
pub open spec fn has_field(fields: Seq<(WireView, WireView)>, name: Seq<char>, value: WireView) -> bool {
    exists|i: int| 0 <= i < fields.len() && #[trigger] fields[i] == (WireView::String(name), value)
}

/// Whether a map has nothing under a key.
pub open spec fn lacks(fields: Seq<(WireView, WireView)>, name: Seq<char>) -> bool {
    forall|i: int| 0 <= i < fields.len() ==> (#[trigger] fields[i]).0 != WireView::String(name)
}

/// Whether an optional value is what a map holds under a key.
pub open spec fn is_field(fields: Seq<(WireView, WireView)>, name: Seq<char>, value: Option<WireView>) -> bool {
    match value {
        Some(value) => has_field(fields, name, value),
        None => lacks(fields, name),
    }
}

pub proof fn lemma_two_fields(fields: Seq<(WireView, WireView)>, a: Seq<char>, b: Seq<char>, n: int)
    requires
        a != b,
        0 <= n <= fields.len(),
    ensures
        two_fields(fields, a, b, n) is Fields <==> only(fields.take(n), a, b),
        two_fields(fields, a, b, n) matches PairView::Fields(first, second) ==> is_field(fields.take(n), a, first) && is_field(
            fields.take(n),
            b,
            second,
        ),
    decreases n,
{
    if n > 0 {
        lemma_two_fields(fields, a, b, n - 1);
        let shorter = fields.take(n - 1);
        let longer = fields.take(n);
        assert forall|i: int| 0 <= i < n - 1 implies #[trigger] longer[i] == shorter[i] by {}
        assert(longer[n - 1] == fields[n - 1]);
        if only(longer, a, b) {
            assert(only(shorter, a, b)) by {
                assert forall|i: int| 0 <= i < shorter.len() implies (#[trigger] shorter[i]).0 == WireView::String(a)
                    || shorter[i].0 == WireView::String(b) by {
                    assert(longer[i] == shorter[i]);
                }
                assert forall|i: int, j: int| 0 <= i < j < shorter.len() implies (#[trigger] shorter[i]).0 != (
                #[trigger] shorter[j]).0 by {
                    assert(longer[i].0 != longer[j].0);
                }
            }
        }
        if let PairView::Fields(first, second) = two_fields(fields, a, b, n - 1) {
            lemma_more(shorter, longer, a, first);
            lemma_more(shorter, longer, b, second);
            let key = fields[n - 1].0;
            if key == WireView::String(a) {
                if let Some(value) = first {
                    let i = choose|i: int| 0 <= i < shorter.len() && #[trigger] shorter[i] == (WireView::String(a), value);
                    assert(longer[i].0 == longer[n - 1].0);
                }
            } else if key == WireView::String(b) {
                if let Some(value) = second {
                    let i = choose|i: int| 0 <= i < shorter.len() && #[trigger] shorter[i] == (WireView::String(b), value);
                    assert(longer[i].0 == longer[n - 1].0);
                }
            }
            if two_fields(fields, a, b, n) is Fields {
                assert forall|i: int| 0 <= i < longer.len() implies (#[trigger] longer[i]).0 == WireView::String(a)
                    || longer[i].0 == WireView::String(b) by {
                    if i < n - 1 {
                        assert(longer[i] == shorter[i]);
                    }
                }
                assert forall|i: int, j: int| 0 <= i < j < longer.len() implies (#[trigger] longer[i]).0 != (
                #[trigger] longer[j]).0 by {
                    assert(longer[i] == shorter[i]);
                    if j < n - 1 {
                        assert(longer[j] == shorter[j]);
                    }
                }
            }
        }
    } else {
        assert(only(fields.take(0), a, b));
    }
}

/// What a longer map holds, once it is known of the part without its last pair.
proof fn lemma_more(shorter: Seq<(WireView, WireView)>, longer: Seq<(WireView, WireView)>, name: Seq<char>, value: Option<WireView>)
    requires
        longer.len() == shorter.len() + 1,
        forall|i: int| 0 <= i < shorter.len() ==> #[trigger] longer[i] == shorter[i],
        is_field(shorter, name, value),
    ensures
        value is Some || longer.last().0 != WireView::String(name) ==> is_field(longer, name, value),
        longer.last().0 == WireView::String(name) ==> is_field(longer, name, Some(longer.last().1)),
{
    if let Some(v) = value {
        let i = choose|i: int| 0 <= i < shorter.len() && #[trigger] shorter[i] == (WireView::String(name), v);
        assert(longer[i] == (WireView::String(name), v));
    } else if longer.last().0 != WireView::String(name) {
        assert forall|i: int| 0 <= i < longer.len() implies (#[trigger] longer[i]).0 != WireView::String(name) by {
            if i < shorter.len() {
                assert(longer[i] == shorter[i]);
            }
        }
    }
    if longer.last().0 == WireView::String(name) {
        assert(longer[longer.len() - 1] == (WireView::String(name), longer.last().1));
    }
}

/// What is under a key of a tidy map is one value.
pub proof fn lemma_single(fields: Seq<(WireView, WireView)>, a: Seq<char>, b: Seq<char>, name: Seq<char>, x: Option<WireView>, y: Option<WireView>)
    requires
        only(fields, a, b),
        is_field(fields, name, x),
        is_field(fields, name, y),
    ensures
        x == y,
{
    if x is Some && y is Some {
        let i = choose|i: int| 0 <= i < fields.len() && #[trigger] fields[i] == (WireView::String(name), x->0);
        let j = choose|j: int| 0 <= j < fields.len() && #[trigger] fields[j] == (WireView::String(name), y->0);
        if i < j {
            assert(fields[i].0 != fields[j].0);
        } else if j < i {
            assert(fields[j].0 != fields[i].0);
        }
    } else if x is Some {
        let i = choose|i: int| 0 <= i < fields.len() && #[trigger] fields[i] == (WireView::String(name), x->0);
        assert(fields[i].0 != WireView::String(name));
    } else if y is Some {
        let i = choose|i: int| 0 <= i < fields.len() && #[trigger] fields[i] == (WireView::String(name), y->0);
        assert(fields[i].0 != WireView::String(name));
    }
}

proof fn lemma_names()
    ensures
        "name"@ != "blanket"@,
        "config"@ != "registrations"@,
{
    reveal_strlit("name");
    reveal_strlit("blanket");
    reveal_strlit("config");
    reveal_strlit("registrations");
    assert("name"@.len() != "blanket"@.len());
    assert("config"@.len() != "registrations"@.len());
}

/// A registration is a map with the name of a function, a text that is not empty, and perhaps a blanket grant, a
/// boolean; without one the grant is not given.
pub open spec fn registers(entry: WireView, name: Seq<char>, blanket: bool) -> bool {
    entry matches WireView::Pairs(fields) && only(fields, "name"@, "blanket"@) && name.len() > 0 && has_field(
        fields,
        "name"@,
        WireView::String(name),
    ) && (has_field(fields, "blanket"@, WireView::Boolean(blanket)) || (!blanket && lacks(fields, "blanket"@)))
}

/// What one registration is accepted as.
pub proof fn law_registration(entry: WireView, index: int, name: Seq<char>, blanket: bool)
    ensures
        decoded_entry(entry, index) == Ok::<(Seq<char>, bool), Seq<char>>((name, blanket)) <==> registers(entry, name, blanket),
{
    lemma_names();
    if let WireView::Pairs(fields) = entry {
        lemma_two_fields(fields, "name"@, "blanket"@, fields.len() as int);
        assert(fields.take(fields.len() as int) =~= fields);
        if let PairView::Fields(n, b) = two_fields(fields, "name"@, "blanket"@, fields.len() as int) {
            if registers(entry, name, blanket) {
                lemma_single(fields, "name"@, "blanket"@, "name"@, n, Some(WireView::String(name)));
                if has_field(fields, "blanket"@, WireView::Boolean(blanket)) {
                    lemma_single(fields, "name"@, "blanket"@, "blanket"@, b, Some(WireView::Boolean(blanket)));
                } else {
                    lemma_single(fields, "name"@, "blanket"@, "blanket"@, b, None);
                }
            }
        }
    }
}

proof fn lemma_entries(entries: Seq<WireView>, n: int, list: Seq<(Seq<char>, bool)>)
    requires
        0 <= n <= entries.len(),
    ensures
        decoded_entries(entries, n) == Ok::<Seq<(Seq<char>, bool)>, Seq<char>>(list) <==> list.len() == n && (forall|i: int|
            0 <= i < n ==> registers(entries[i], (#[trigger] list[i]).0, list[i].1)) && forall|i: int, j: int|
            0 <= i < j < n ==> (#[trigger] list[i]).0 != (#[trigger] list[j]).0,
    decreases n,
{
    if n > 0 {
        if list.len() == n {
            let before = list.drop_last();
            lemma_entries(entries, n - 1, before);
            law_registration(entries[n - 1], n - 1, list.last().0, list.last().1);
            assert(before.push(list.last()) =~= list);
            assert forall|i: int| 0 <= i < n - 1 implies #[trigger] before[i] == list[i] by {}
            if decoded_entries(entries, n) == Ok::<Seq<(Seq<char>, bool)>, Seq<char>>(list) {
                let so_far = decoded_entries(entries, n - 1)->Ok_0;
                let last = decoded_entry(entries[n - 1], n - 1)->Ok_0;
                assert(so_far.push(last).drop_last() =~= so_far);
                assert(so_far == before);
                assert(last == list.last());
                assert forall|i: int| 0 <= i < n implies registers(entries[i], (#[trigger] list[i]).0, list[i].1) by {
                    if i < n - 1 {
                        assert(before[i] == list[i]);
                    }
                }
                assert forall|i: int, j: int| 0 <= i < j < n implies (#[trigger] list[i]).0 != (#[trigger] list[j]).0 by {
                    assert(before[i] == list[i]);
                    if j < n - 1 {
                        assert(before[j] == list[j]);
                    }
                }
            } else if (forall|i: int| 0 <= i < n ==> registers(entries[i], (#[trigger] list[i]).0, list[i].1)) && forall|
                i: int,
                j: int,
            |
                0 <= i < j < n ==> (#[trigger] list[i]).0 != (#[trigger] list[j]).0 {
                assert(registers(entries[n - 1], list[n - 1].0, list[n - 1].1));
                assert forall|i: int| 0 <= i < n - 1 implies registers(entries[i], (#[trigger] before[i]).0, before[i].1) by {
                    assert(before[i] == list[i]);
                }
                assert forall|i: int, j: int| 0 <= i < j < n - 1 implies (#[trigger] before[i]).0 != (#[trigger] before[j]).0 by {
                    assert(list[i].0 != list[j].0);
                }
                if has_key(before, list.last().0) {
                    let i = choose|i: int| 0 <= i < before.len() && (#[trigger] before[i]).0 == list.last().0;
                    assert(list[i].0 != list[n - 1].0);
                }
            }
        } else if decoded_entries(entries, n) == Ok::<Seq<(Seq<char>, bool)>, Seq<char>>(list) {
            let so_far = decoded_entries(entries, n - 1)->Ok_0;
            lemma_entries(entries, n - 1, so_far);
        }
    } else if list.len() == 0 {
        assert(list =~= Seq::empty());
    }
}

/// An `Init` is accepted exactly when its payload is a map with an empty `config` and a list of
/// `registrations`, each well-formed and no name twice; what is handed over is the registrations, in their order.
pub proof fn law_init_hands_over(payload: WireView, list: Seq<(Seq<char>, bool)>)
    ensures
        decoded_init(payload) == Ok::<Seq<(Seq<char>, bool)>, Seq<char>>(list) <==> (payload matches WireView::Pairs(fields)
            && only(fields, "config"@, "registrations"@) && has_field(fields, "config"@, WireView::Pairs(Seq::empty()))
            && exists|entries: Seq<WireView>|
            #[trigger] has_field(fields, "registrations"@, WireView::Array(entries)) && list.len() == entries.len() && (forall|i: int|
                0 <= i < list.len() ==> registers(entries[i], (#[trigger] list[i]).0, list[i].1)) && forall|i: int, j: int|
                0 <= i < j < list.len() ==> (#[trigger] list[i]).0 != (#[trigger] list[j]).0),
{
    lemma_names();
    if let WireView::Pairs(fields) = payload {
        lemma_two_fields(fields, "config"@, "registrations"@, fields.len() as int);
        assert(fields.take(fields.len() as int) =~= fields);
        if let PairView::Fields(c, r) = two_fields(fields, "config"@, "registrations"@, fields.len() as int) {
            if has_field(fields, "config"@, WireView::Pairs(Seq::empty())) {
                lemma_single(fields, "config"@, "registrations"@, "config"@, c, Some(WireView::Pairs(Seq::empty())));
            }
            if let Some(WireView::Array(entries)) = r {
                lemma_entries(entries, entries.len() as int, list);
            }
            if decoded_init(payload) == Ok::<Seq<(Seq<char>, bool)>, Seq<char>>(list) {
                assert(c->0->Pairs_0 =~= Seq::empty());
                assert(has_field(fields, "registrations"@, WireView::Array(r->0->Array_0)));
            }
            if exists|entries: Seq<WireView>|
                #[trigger] has_field(fields, "registrations"@, WireView::Array(entries)) && list.len() == entries.len() && (forall|
                    i: int,
                |
                    0 <= i < list.len() ==> registers(entries[i], (#[trigger] list[i]).0, list[i].1)) && forall|i: int, j: int|
                    0 <= i < j < list.len() ==> (#[trigger] list[i]).0 != (#[trigger] list[j]).0 {
                let entries = choose|entries: Seq<WireView>|
                    #[trigger] has_field(fields, "registrations"@, WireView::Array(entries)) && list.len() == entries.len() && (
                    forall|i: int| 0 <= i < list.len() ==> registers(entries[i], (#[trigger] list[i]).0, list[i].1)) && forall|
                        i: int,
                        j: int,
                    |
                        0 <= i < j < list.len() ==> (#[trigger] list[i]).0 != (#[trigger] list[j]).0;
                lemma_single(fields, "config"@, "registrations"@, "registrations"@, r, Some(WireView::Array(entries)));
            }
        }
    } else if payload is Nil {
        assert(two_fields(Seq::empty(), "config"@, "registrations"@, 0) == PairView::Fields(None, None));
    }
}

} // verus!
