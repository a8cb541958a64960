//! The untyped values that messages carry.

use vstd::prelude::*;

verus! {

/// A value as it is on the wire.
#[derive(Debug)]
pub enum Wire {
    Nil,
    Boolean(bool),
    Unsigned(u64),
    Signed(i64),
    /// A single-precision number, by its bits.
    F32(u32),
    /// A double-precision number, by its bits.
    F64(u64),
    String(String),
    Binary(Vec<u8>),
    Array(Vec<Wire>),
    Pairs(Vec<(Wire, Wire)>),
    Ext(i8, Vec<u8>),
}

/// What a [`Wire`] value is: a tree. An integer is one number, however it is held.
#[verifier::ext_equal]
pub ghost enum WireView {
    Nil,
    Boolean(bool),
    Integer(int),
    F32(u32),
    F64(u64),
    String(Seq<char>),
    Binary(Seq<u8>),
    Array(Seq<WireView>),
    Pairs(Seq<(WireView, WireView)>),
    Ext(i8, Seq<u8>),
}

pub open spec fn tree(value: Wire) -> WireView
    decreases value,
{
    match value {
        Wire::Nil => WireView::Nil,
        Wire::Boolean(b) => WireView::Boolean(b),
        Wire::Unsigned(n) => WireView::Integer(n as int),
        Wire::Signed(n) => WireView::Integer(n as int),
        Wire::F32(bits) => WireView::F32(bits),
        Wire::F64(bits) => WireView::F64(bits),
        Wire::String(text) => WireView::String(text@),
        Wire::Binary(bytes) => WireView::Binary(bytes@),
        Wire::Array(items) => WireView::Array(
            Seq::new(
                items@.len(),
                |i: int|
                    if 0 <= i < items@.len() {
                        tree(items@[i])
                    } else {
                        WireView::Nil
                    },
            ),
        ),
        Wire::Pairs(pairs) => WireView::Pairs(
            Seq::new(
                pairs@.len(),
                |i: int|
                    if 0 <= i < pairs@.len() {
                        (tree(pairs@[i].0), tree(pairs@[i].1))
                    } else {
                        (WireView::Nil, WireView::Nil)
                    },
            ),
        ),
        Wire::Ext(tag, bytes) => WireView::Ext(tag, bytes@),
    }
}

impl View for Wire {
    type V = WireView;

    open spec fn view(&self) -> WireView {
        tree(*self)
    }
}

/// What some values are.
pub open spec fn items_view(items: Seq<Wire>) -> Seq<WireView> {
    Seq::new(items.len(), |i: int| items[i]@)
}

/// What some pairs of values are.
pub open spec fn pairs_view(pairs: Seq<(Wire, Wire)>) -> Seq<(WireView, WireView)> {
    Seq::new(pairs.len(), |i: int| (pairs[i].0@, pairs[i].1@))
}

/// An array is its items, and a map is its pairs.
pub broadcast proof fn lemma_wire_items(value: Wire)
    ensures
        #![trigger value@]
        value matches Wire::Array(items) ==> value@ == WireView::Array(items_view(items@)),
        value matches Wire::Pairs(pairs) ==> value@ == WireView::Pairs(pairs_view(pairs@)),
{
    match value {
        Wire::Array(items) => {
            assert(value@->Array_0 =~= items_view(items@));
        },
        Wire::Pairs(pairs) => {
            assert(value@->Pairs_0 =~= pairs_view(pairs@));
        },
        _ => {},
    }
}

/// An array is more than each of its items.
pub proof fn lemma_item_smaller(value: WireView, i: int)
    requires
        value is Array,
        0 <= i < value->Array_0.len(),
    ensures
        decreases_to!(value => value->Array_0[i]),
{
    assert(decreases_to!(value => value->Array_0));
    assert(decreases_to!(value->Array_0 => value->Array_0[i]));
}

/// A map is more than each of its keys and values.
pub proof fn lemma_pair_smaller(value: WireView, i: int)
    requires
        value is Pairs,
        0 <= i < value->Pairs_0.len(),
    ensures
        decreases_to!(value => value->Pairs_0[i].0),
        decreases_to!(value => value->Pairs_0[i].1),
{
    assert(decreases_to!(value => value->Pairs_0));
    assert(decreases_to!(value->Pairs_0 => value->Pairs_0[i]));
    assert(decreases_to!(value->Pairs_0[i] => value->Pairs_0[i].0));
    assert(decreases_to!(value->Pairs_0[i] => value->Pairs_0[i].1));
}

/// An integer fits 64 bits, with or without a sign.
pub proof fn lemma_integer_range(value: Wire)
    ensures
        value@ matches WireView::Integer(n) ==> i64::MIN <= n <= u64::MAX,
{
}

/// How many arrays, maps and extensions deep a value nests.
pub open spec fn nesting(value: WireView) -> nat
    decreases value,
{
    match value {
        WireView::Array(items) => 1 + items_nesting(items, items.len() as int),
        WireView::Pairs(pairs) => 1 + pairs_nesting(pairs, pairs.len() as int),
        WireView::Ext(..) => 1,
        _ => 0,
    }
}

/// How deep the deepest of the first `n` items nests.
pub open spec fn items_nesting(items: Seq<WireView>, n: int) -> nat
    decreases items, n,
{
    if n <= 0 || n > items.len() {
        0
    } else {
        let before = items_nesting(items, n - 1);
        let last = nesting(items[n - 1]);
        if before < last {
            last
        } else {
            before
        }
    }
}

/// How deep the deepest of the first `n` pairs nests.
pub open spec fn pairs_nesting(pairs: Seq<(WireView, WireView)>, n: int) -> nat
    decreases pairs, n,
{
    if n <= 0 || n > pairs.len() {
        0
    } else {
        let before = pairs_nesting(pairs, n - 1);
        let key = nesting(pairs[n - 1].0);
        let value = nesting(pairs[n - 1].1);
        let last = if key < value {
            value
        } else {
            key
        };
        if before < last {
            last
        } else {
            before
        }
    }
}

/// No item nests deeper than the deepest.
pub proof fn lemma_items_nesting(items: Seq<WireView>, n: int, i: int)
    requires
        0 <= i < n <= items.len(),
    ensures
        nesting(items[i]) <= items_nesting(items, n),
    decreases n,
{
    if i < n - 1 {
        lemma_items_nesting(items, n - 1, i);
    }
}

/// No key and no value nests deeper than the deepest.
pub proof fn lemma_pairs_nesting(pairs: Seq<(WireView, WireView)>, n: int, i: int)
    requires
        0 <= i < n <= pairs.len(),
    ensures
        nesting(pairs[i].0) <= pairs_nesting(pairs, n),
        nesting(pairs[i].1) <= pairs_nesting(pairs, n),
    decreases n,
{
    if i < n - 1 {
        lemma_pairs_nesting(pairs, n - 1, i);
    }
}

impl Wire {
    /// An integer.
    pub fn integer(n: i64) -> (r: Self)
        ensures
            r@ == WireView::Integer(n as int),
    {
        if n >= 0 {
            Wire::Unsigned(n as u64)
        } else {
            Wire::Signed(n)
        }
    }

    /// A string.
    pub fn text(text: &str) -> (r: Self)
        ensures
            r@ == WireView::String(text@),
    {
        Wire::String(text.to_owned())
    }

    /// The text of a string.
    pub fn as_str(&self) -> (r: Option<&str>)
        ensures
            match r {
                Some(text) => self@ == WireView::String(text@),
                None => !(self@ is String),
            },
    {
        match self {
            Wire::String(text) => Some(text.as_str()),
            _ => None,
        }
    }

    /// The number, when it is an integer that is not negative.
    pub fn as_u64(&self) -> (r: Option<u64>)
        ensures
            match r {
                Some(n) => self@ == WireView::Integer(n as int),
                None => !(self@ is Integer) || self@->Integer_0 < 0,
            },
    {
        match self {
            Wire::Unsigned(n) => Some(*n),
            Wire::Signed(n) => if *n >= 0 {
                Some(*n as u64)
            } else {
                None
            },
            _ => None,
        }
    }

    /// Whether the value nests no deeper than `levels`.
    pub fn nests_within(&self, levels: usize) -> (r: bool)
        ensures
            r == (nesting(self@) <= levels),
        decreases levels,
    {
        broadcast use lemma_wire_items;

        match self {
            Wire::Array(items) => {
                if levels == 0 {
                    return false;
                }
                let ghost views = items_view(items@);
                let mut i: usize = 0;
                while i < items.len()
                    invariant
                        i <= items@.len(),
                        levels > 0,
                        views == items_view(items@),
                        self@ == WireView::Array(views),
                        items_nesting(views, i as int) <= levels - 1,
                    decreases items.len() - i,
                {
                    proof {
                        assert(views[i as int] == items@[i as int]@);
                        lemma_items_nesting(views, views.len() as int, i as int);
                    }
                    if !items[i].nests_within(levels - 1) {
                        return false;
                    }
                    i = i + 1;
                }
                true
            },
            Wire::Pairs(pairs) => {
                if levels == 0 {
                    return false;
                }
                let ghost views = pairs_view(pairs@);
                let mut i: usize = 0;
                while i < pairs.len()
                    invariant
                        i <= pairs@.len(),
                        levels > 0,
                        views == pairs_view(pairs@),
                        self@ == WireView::Pairs(views),
                        pairs_nesting(views, i as int) <= levels - 1,
                    decreases pairs.len() - i,
                {
                    proof {
                        assert(views[i as int].0 == pairs@[i as int].0@);
                        assert(views[i as int].1 == pairs@[i as int].1@);
                        lemma_pairs_nesting(views, views.len() as int, i as int);
                    }
                    if !pairs[i].0.nests_within(levels - 1) || !pairs[i].1.nests_within(levels - 1) {
                        return false;
                    }
                    i = i + 1;
                }
                true
            },
            Wire::Ext(..) => levels > 0,
            _ => true,
        }
    }

    /// A copy.
    pub fn copied(&self) -> (r: Self)
        ensures
            r@ == self@,
        decreases self@,
    {
        broadcast use lemma_wire_items;

        match self {
            Wire::Nil => Wire::Nil,
            Wire::Boolean(b) => Wire::Boolean(*b),
            Wire::Unsigned(n) => Wire::Unsigned(*n),
            Wire::Signed(n) => Wire::Signed(*n),
            Wire::F32(bits) => Wire::F32(*bits),
            Wire::F64(bits) => Wire::F64(*bits),
            Wire::String(text) => Wire::String(text.as_str().to_owned()),
            Wire::Binary(bytes) => Wire::Binary(copied_bytes(bytes)),
            Wire::Array(items) => {
                let mut out: Vec<Wire> = Vec::new();
                let mut i: usize = 0;
                while i < items.len()
                    invariant
                        i <= items@.len(),
                        out@.len() == i,
                        *self == Wire::Array(*items),
                        forall|j: int| 0 <= j < i ==> (#[trigger] out@[j])@ == items@[j]@,
                    decreases items.len() - i,
                {
                    proof {
                        lemma_item_smaller(self@, i as int);
                    }
                    out.push(items[i].copied());
                    i = i + 1;
                }
                proof {
                    assert(items_view(out@) =~= items_view(items@));
                }
                let r = Wire::Array(out);
                assert(r@ == self@);
                r
            },
            Wire::Pairs(pairs) => {
                let mut out: Vec<(Wire, Wire)> = Vec::new();
                let mut i: usize = 0;
                while i < pairs.len()
                    invariant
                        i <= pairs@.len(),
                        out@.len() == i,
                        *self == Wire::Pairs(*pairs),
                        forall|j: int|
                            0 <= j < i ==> (#[trigger] out@[j]).0@ == pairs@[j].0@ && out@[j].1@ == pairs@[j].1@,
                    decreases pairs.len() - i,
                {
                    proof {
                        lemma_pair_smaller(self@, i as int);
                    }
                    let key = pairs[i].0.copied();
                    let value = pairs[i].1.copied();
                    out.push((key, value));
                    i = i + 1;
                }
                proof {
                    assert(pairs_view(out@) =~= pairs_view(pairs@));
                }
                let r = Wire::Pairs(out);
                assert(r@ == self@);
                r
            },
            Wire::Ext(tag, bytes) => Wire::Ext(*tag, copied_bytes(bytes)),
        }
    }
}

/// A copy of some bytes.
pub fn copied_bytes(bytes: &Vec<u8>) -> (r: Vec<u8>)
    ensures
        r@ == bytes@,
{
    let mut out: Vec<u8> = Vec::new();
    let mut i: usize = 0;
    while i < bytes.len()
        invariant
            i <= bytes@.len(),
            out@ == bytes@.take(i as int),
        decreases bytes.len() - i,
    {
        out.push(bytes[i]);
        i = i + 1;
        proof {
            assert(out@ =~= bytes@.take(i as int));
        }
    }
    proof {
        assert(out@ =~= bytes@);
    }
    out
}

} // verus!
