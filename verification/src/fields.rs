//! Reading a map that has two known keys.

use vstd::prelude::*;
use crate::text::same;
use crate::wire::Wire;
use crate::wire::WireView;
use crate::wire::pairs_view;

verus! {

/// What a map with two known keys holds, or the first pair whose key is wrong.
#[verifier::ext_equal]
pub ghost enum PairView {
    /// The values under the two keys.
    Fields(Option<WireView>, Option<WireView>),
    /// The key of this pair is none of the two.
    Unknown(int),
    /// The key of this pair was there before.
    Repeated(int),
}

/// What the first `n` pairs of a map hold under the keys `a` and `b`.
pub open spec fn two_fields(fields: Seq<(WireView, WireView)>, a: Seq<char>, b: Seq<char>, n: int) -> PairView
    decreases n,
{
    if n <= 0 {
        PairView::Fields(None, None)
    } else {
        match two_fields(fields, a, b, n - 1) {
            PairView::Fields(first, second) => {
                let (key, value) = fields[n - 1];
                if key == WireView::String(a) {
                    if first is Some {
                        PairView::Repeated(n - 1)
                    } else {
                        PairView::Fields(Some(value), second)
                    }
                } else if key == WireView::String(b) {
                    if second is Some {
                        PairView::Repeated(n - 1)
                    } else {
                        PairView::Fields(first, Some(value))
                    }
                } else {
                    PairView::Unknown(n - 1)
                }
            },
            wrong => wrong,
        }
    }
}

/// What a map with two known keys holds, or the first pair whose key is wrong.
pub enum Pair<'a> {
    Fields(Option<&'a Wire>, Option<&'a Wire>),
    Unknown(usize),
    Repeated(usize),
}

/// What an optional value is.
pub open spec fn optional_view(value: Option<&Wire>) -> Option<WireView> {
    match value {
        Some(value) => Some(value@),
        None => None,
    }
}

/// Whether a reading says what the map holds.
pub open spec fn reads(pair: Pair<'_>, view: PairView) -> bool {
    match pair {
        Pair::Fields(first, second) => view == PairView::Fields(optional_view(first), optional_view(second)),
        Pair::Unknown(i) => view == PairView::Unknown(i as int),
        Pair::Repeated(i) => view == PairView::Repeated(i as int),
    }
}

proof fn lemma_stays_wrong(fields: Seq<(WireView, WireView)>, a: Seq<char>, b: Seq<char>, k: int, n: int)
    requires
        0 <= k <= n,
    ensures
        !(two_fields(fields, a, b, k) is Fields) ==> two_fields(fields, a, b, n) == two_fields(fields, a, b, k),
    decreases n - k,
{
    if k < n {
        lemma_stays_wrong(fields, a, b, k, n - 1);
    }
}

/// Read a map with the two keys `a` and `b`.
pub fn read_two<'a>(fields: &'a Vec<(Wire, Wire)>, a: &str, b: &str) -> (r: Pair<'a>)
    ensures
        reads(r, two_fields(pairs_view(fields@), a@, b@, fields@.len() as int)),
        r matches Pair::Unknown(i) ==> i < fields@.len(),
        r matches Pair::Repeated(i) ==> i < fields@.len() && (fields@[i as int].0@ == WireView::String(a@)
            || fields@[i as int].0@ == WireView::String(b@)),
        r matches Pair::Fields(first, second) ==> (first matches Some(value) ==> exists|i: int|
            0 <= i < fields@.len() && (#[trigger] fields@[i]).1 == *value) && (second matches Some(value) ==> exists|i: int|
            0 <= i < fields@.len() && (#[trigger] fields@[i]).1 == *value),
{
    let ghost views = pairs_view(fields@);
    let mut first: Option<&'a Wire> = None;
    let mut second: Option<&'a Wire> = None;
    let mut i: usize = 0;
    while i < fields.len()
        invariant
            i <= fields@.len(),
            views == pairs_view(fields@),
            two_fields(views, a@, b@, i as int) == PairView::Fields(optional_view(first), optional_view(second)),
            first matches Some(value) ==> exists|k: int| 0 <= k < fields@.len() && (#[trigger] fields@[k]).1 == *value,
            second matches Some(value) ==> exists|k: int| 0 <= k < fields@.len() && (#[trigger] fields@[k]).1 == *value,
        decreases fields.len() - i,
    {
        proof {
            assert(views[i as int].0 == fields@[i as int].0@);
            assert(views[i as int].1 == fields@[i as int].1@);
            lemma_stays_wrong(views, a@, b@, i + 1, views.len() as int);
        }
        match fields[i].0.as_str() {
            Some(key) => {
                if same(key, a) {
                    if first.is_some() {
                        return Pair::Repeated(i);
                    }
                    first = Some(&fields[i].1);
                } else if same(key, b) {
                    if second.is_some() {
                        return Pair::Repeated(i);
                    }
                    second = Some(&fields[i].1);
                } else {
                    return Pair::Unknown(i);
                }
            },
            None => {
                return Pair::Unknown(i);
            },
        }
        i = i + 1;
    }
    Pair::Fields(first, second)
}

/// A value that is there and not nil.
pub open spec fn there(value: Option<WireView>) -> Option<WireView> {
    match value {
        Some(WireView::Nil) => None,
        other => other,
    }
}

/// A value that is absent or nil is missing.
pub fn present<'a>(value: Option<&'a Wire>) -> (r: Option<&'a Wire>)
    ensures
        optional_view(r) == there(optional_view(value)),
        r matches Some(found) ==> value == Some(found),
{
    match value {
        Some(Wire::Nil) => None,
        other => other,
    }
}

} // verus!
