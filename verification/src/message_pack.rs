//! MessagePack: bytes to wire values and back, through `rmp_serde` and `rmpv`.

use vstd::prelude::*;
use vstd::utf8::encode_utf8;
use crate::bytes::bytes_of;
use crate::bytes::number_of;
use crate::bytes::push_number;
use crate::wire::Wire;
use crate::wire::WireView;
use crate::wire::copied_bytes;
use crate::wire::items_view;
use crate::wire::lemma_item_smaller;
use crate::wire::lemma_pair_smaller;
use crate::wire::lemma_wire_items;
use crate::wire::nesting;
use crate::wire::pairs_view;
use rmpv::Value as Packed;

verus! {

/// `rmpv::Value`: any MessagePack value.
#[verifier::external_type_specification]
#[verifier::external_body]
pub struct ExPacked(Packed);

/// What an `rmpv::Value` holds. A string that is not valid UTF-8 counts as binary data.
pub uninterp spec fn held(value: Packed) -> WireView;

/// The outermost layer of an `rmpv::Value`.
pub enum Seen<'a> {
    Nil,
    Boolean(bool),
    Unsigned(u64),
    Signed(i64),
    F32(u32),
    F64(u64),
    String(&'a str),
    Binary(&'a [u8]),
    Array(&'a Vec<Packed>),
    Pairs(&'a Vec<(Packed, Packed)>),
    Ext(i8, &'a [u8]),
}

/// What some values hold.
pub open spec fn all_held(values: Seq<Packed>) -> Seq<WireView> {
    Seq::new(values.len(), |i: int| held(values[i]))
}

/// What some pairs of values hold.
pub open spec fn pairs_held(pairs: Seq<(Packed, Packed)>) -> Seq<(WireView, WireView)> {
    Seq::new(pairs.len(), |i: int| (held(pairs[i].0), held(pairs[i].1)))
}

/// What a layer and what it holds come to.
pub open spec fn seen_view(seen: Seen<'_>) -> WireView {
    match seen {
        Seen::Nil => WireView::Nil,
        Seen::Boolean(b) => WireView::Boolean(b),
        Seen::Unsigned(n) => WireView::Integer(n as int),
        Seen::Signed(n) => WireView::Integer(n as int),
        Seen::F32(bits) => WireView::F32(bits),
        Seen::F64(bits) => WireView::F64(bits),
        Seen::String(text) => WireView::String(text@),
        Seen::Binary(bytes) => WireView::Binary(bytes@),
        Seen::Array(items) => WireView::Array(all_held(items@)),
        Seen::Pairs(pairs) => WireView::Pairs(pairs_held(pairs@)),
        Seen::Ext(tag, bytes) => WireView::Ext(tag, bytes@),
    }
}

/// Tells the variants of `rmpv::Value` apart, with the accessors of `rmpv::Integer` and
/// `rmpv::Utf8String`: the layer seen and the values inside it come to what the value holds.
#[verifier::external_body]
fn look<'a>(value: &'a Packed) -> (r: Seen<'a>)
    ensures
        seen_view(r) == held(*value),
{
    match value {
        Packed::Nil => Seen::Nil,
        Packed::Boolean(b) => Seen::Boolean(*b),
        Packed::Integer(n) => n.as_u64().map_or(Seen::Signed(n.as_i64().unwrap_or_default()), Seen::Unsigned),
        Packed::F32(f) => Seen::F32(f.to_bits()),
        Packed::F64(f) => Seen::F64(f.to_bits()),
        Packed::String(s) => s.as_str().map_or(Seen::Binary(s.as_bytes()), Seen::String),
        Packed::Binary(bytes) => Seen::Binary(bytes),
        Packed::Array(items) => Seen::Array(items),
        Packed::Map(pairs) => Seen::Pairs(pairs),
        Packed::Ext(tag, bytes) => Seen::Ext(*tag, bytes),
    }
}

/// A layer of an `rmpv::Value` to be made, floats apart.
pub enum Layer {
    Nil,
    Boolean(bool),
    Unsigned(u64),
    Signed(i64),
    String(String),
    Binary(Vec<u8>),
    Array(Vec<Packed>),
    Pairs(Vec<(Packed, Packed)>),
    Ext(i8, Vec<u8>),
}

/// What a layer and what it holds come to.
pub open spec fn layer_view(layer: Layer) -> WireView {
    match layer {
        Layer::Nil => WireView::Nil,
        Layer::Boolean(b) => WireView::Boolean(b),
        Layer::Unsigned(n) => WireView::Integer(n as int),
        Layer::Signed(n) => WireView::Integer(n as int),
        Layer::String(text) => WireView::String(text@),
        Layer::Binary(bytes) => WireView::Binary(bytes@),
        Layer::Array(items) => WireView::Array(all_held(items@)),
        Layer::Pairs(pairs) => WireView::Pairs(pairs_held(pairs@)),
        Layer::Ext(tag, bytes) => WireView::Ext(tag, bytes@),
    }
}

/// Builds an `rmpv::Value` of each variant: it holds the layer and the values inside it.
#[verifier::external_body]
fn build(layer: Layer) -> (r: Packed)
    ensures
        held(r) == layer_view(layer),
{
    match layer {
        Layer::Nil => Packed::Nil,
        Layer::Boolean(b) => Packed::Boolean(b),
        Layer::Unsigned(n) => Packed::from(n),
        Layer::Signed(n) => Packed::from(n),
        Layer::String(text) => Packed::from(text),
        Layer::Binary(bytes) => Packed::Binary(bytes),
        Layer::Array(items) => Packed::Array(items),
        Layer::Pairs(pairs) => Packed::Map(pairs),
        Layer::Ext(tag, bytes) => Packed::Ext(tag, bytes),
    }
}

/// Calls `rmp_serde::from_slice` on the encoding of one float, a marker and the bits behind it: the
/// value read holds those bits.
#[verifier::external_body]
fn read_float(bytes: &Vec<u8>) -> (r: Packed)
    requires
        (bytes@.len() == 5 && bytes@[0] == 0xca) || (bytes@.len() == 9 && bytes@[0] == 0xcb),
    ensures
        bytes@.len() == 5 ==> held(r) == WireView::F32(number_of(bytes@.skip(1)) as u32),
        bytes@.len() == 9 ==> held(r) == WireView::F64(number_of(bytes@.skip(1)) as u64),
{
    rmp_serde::from_slice(bytes).unwrap_or(Packed::Nil)
}

/// What reading one value off the front of some bytes comes to.
#[verifier::ext_equal]
pub ghost enum Unpacked {
    /// A value, and how many bytes are left behind it.
    Value { value: WireView, left: nat },
    /// The bytes end before the value does.
    Truncated,
    /// The value nests too deep.
    TooDeep,
    /// Something else, in the reader's words.
    Other(Seq<char>),
}

/// What `rmp_serde` reads off the front of some bytes, with room for fewer than `depth` levels.
pub uninterp spec fn unpacked(bytes: Seq<u8>, depth: nat) -> Unpacked;

/// What reading one value came to.
pub enum Reading {
    Value(Packed, usize),
    Truncated,
    TooDeep,
    Other(String),
}

/// What a reading says.
pub open spec fn reading_view(reading: Reading) -> Unpacked {
    match reading {
        Reading::Value(value, left) => Unpacked::Value { value: held(value), left: left as nat },
        Reading::Truncated => Unpacked::Truncated,
        Reading::TooDeep => Unpacked::TooDeep,
        Reading::Other(message) => Unpacked::Other(message@),
    }
}

/// Deserializes an `rmpv::Value` with an `rmp_serde::Deserializer` whose maximum depth is `depth`.
/// What comes out depends on the bytes and the depth alone. The deserializer counts every array,
/// map and extension down from `depth` and fails at zero, so a value read nests less deep.
#[verifier::external_body]
fn read_value(bytes: &Vec<u8>, depth: usize) -> (r: Reading)
    requires
        1 <= depth <= 1024,
    ensures
        reading_view(r) == unpacked(bytes@, depth as nat),
        r matches Reading::Value(value, left) ==> left <= bytes@.len() && nesting(held(value)) < depth,
{
    let mut rest: &[u8] = bytes;
    let mut reader = rmp_serde::Deserializer::new(&mut rest);
    reader.set_max_depth(depth);
    let read: Result<Packed, _> = serde::Deserialize::deserialize(&mut reader);
    match read {
        Ok(value) => Reading::Value(value, rest.len()),
        Err(rmp_serde::decode::Error::InvalidMarkerRead(io) | rmp_serde::decode::Error::InvalidDataRead(io))
            if io.kind() == std::io::ErrorKind::UnexpectedEof => Reading::Truncated,
        Err(rmp_serde::decode::Error::DepthLimitExceeded) => Reading::TooDeep,
        Err(other) => Reading::Other(other.to_string()),
    }
}

/// The bytes that `rmp_serde` writes for a value.
pub uninterp spec fn packed(value: WireView) -> Seq<u8>;

/// How many bytes an integer takes, in its most compact form.
pub open spec fn integer_len(n: int) -> nat {
    if -32 <= n <= 0x7f {
        1
    } else if -128 <= n <= 0xff {
        2
    } else if -32_768 <= n <= 0xffff {
        3
    } else if -2_147_483_648 <= n <= 0xffff_ffff {
        5
    } else {
        9
    }
}

/// How many bytes a string of `len` bytes takes.
pub open spec fn string_len(len: nat) -> nat {
    len + if len < 32 {
        1nat
    } else if len <= 0xff {
        2
    } else if len <= 0xffff {
        3
    } else {
        5
    }
}

/// How many bytes the header of an array or a map of `len` items takes.
pub open spec fn header_len(len: nat) -> nat {
    if len < 16 {
        1
    } else if len <= 0xffff {
        3
    } else {
        5
    }
}

/// How many bytes a value takes, every header in its most compact form.
pub open spec fn encoded_len(value: WireView) -> nat
    decreases value, 0int,
{
    match value {
        WireView::Nil => 1,
        WireView::Boolean(_) => 1,
        WireView::Integer(n) => integer_len(n),
        WireView::F32(_) => 5,
        WireView::F64(_) => 9,
        WireView::String(text) => string_len(encode_utf8(text).len()),
        WireView::Binary(bytes) => bytes.len() + if bytes.len() <= 0xff {
            2nat
        } else if bytes.len() <= 0xffff {
            3
        } else {
            5
        },
        WireView::Array(items) => header_len(items.len()) + items_len(items, items.len() as int),
        WireView::Pairs(pairs) => header_len(pairs.len()) + pairs_len(pairs, pairs.len() as int),
        WireView::Ext(_, bytes) => bytes.len() + {
            let n = bytes.len();
            if n == 1 || n == 2 || n == 4 || n == 8 || n == 16 {
                2nat
            } else if n <= 0xff {
                3
            } else if n <= 0xffff {
                4
            } else {
                6
            }
        },
    }
}

/// How many bytes the first `n` items take.
pub open spec fn items_len(items: Seq<WireView>, n: int) -> nat
    decreases items, n,
{
    if n <= 0 || n > items.len() {
        0
    } else {
        items_len(items, n - 1) + encoded_len(items[n - 1])
    }
}

/// How many bytes the first `n` pairs take.
pub open spec fn pairs_len(pairs: Seq<(WireView, WireView)>, n: int) -> nat
    decreases pairs, n,
{
    if n <= 0 || n > pairs.len() {
        0
    } else {
        pairs_len(pairs, n - 1) + encoded_len(pairs[n - 1].0) + encoded_len(pairs[n - 1].1)
    }
}

/// Whether the format can count what a value holds: no string, no piece of binary data, no array and
/// no map in it is longer than `u32::MAX`.
pub open spec fn countable(value: WireView) -> bool
    decreases value,
{
    match value {
        WireView::String(text) => encode_utf8(text).len() <= u32::MAX,
        WireView::Binary(bytes) => bytes.len() <= u32::MAX,
        WireView::Ext(_, bytes) => bytes.len() <= u32::MAX,
        WireView::Array(items) => items.len() <= u32::MAX && forall|i: int|
            0 <= i < items.len() ==> countable(#[trigger] items[i]),
        WireView::Pairs(pairs) => pairs.len() <= u32::MAX && forall|i: int|
            0 <= i < pairs.len() ==> countable((#[trigger] pairs[i]).0) && countable(pairs[i].1),
        _ => true,
    }
}

/// Calls `rmp_serde::to_vec_named` on an `rmpv::Value`. Bytes that come out depend on the value
/// alone, and are at least one; none may come out when memory runs short, so nothing is said of when
/// they do. The writer recurses once for every level, so the value nests at most 1024 deep. The bytes
/// read back as the value, with nothing left over, wherever there is room for its levels: a float is
/// written as its bits and read from them, whatever they are. Every integer and header is in its most
/// compact form. A length past `u32::MAX` is the one thing that the format cannot hold, and the writer
/// would cut it: nothing is said of how the bytes of such a value read back.
#[verifier::external_body]
fn write_value(value: &Packed) -> (r: Result<Vec<u8>, String>)
    requires
        nesting(held(*value)) <= 1024,
    ensures
        r matches Ok(bytes) ==> bytes@ == packed(held(*value)) && bytes@.len() > 0,
        r matches Ok(bytes) ==> countable(held(*value)) ==> bytes@.len() == encoded_len(held(*value)),
        r matches Ok(bytes) ==> countable(held(*value)) ==> forall|depth: nat|
            nesting(held(*value)) < depth <= 1024 ==> #[trigger] unpacked(bytes@, depth) == (Unpacked::Value {
                value: held(*value),
                left: 0,
            }),
{
    rmp_serde::to_vec_named(value).map_err(|error| error.to_string())
}

/// A copy of some bytes.
fn owned(bytes: &[u8]) -> (r: Vec<u8>)
    ensures
        r@ == bytes@,
{
    let mut out: Vec<u8> = Vec::new();
    let mut i: usize = 0;
    while i < bytes.len()
        invariant
            i <= bytes@.len(),
            out@ == bytes@.take(i as int),
        decreases bytes.len() - i,
    {
        out.push(bytes[i]);
        i = i + 1;
        proof {
            assert(out@ =~= bytes@.take(i as int));
        }
    }
    proof {
        assert(out@ =~= bytes@);
    }
    out
}

/// An `rmpv::Value` as a wire value.
fn wire_of(value: &Packed) -> (r: Wire)
    ensures
        r@ == held(*value),
    decreases held(*value),
{
    broadcast use lemma_wire_items;

    match look(value) {
        Seen::Nil => Wire::Nil,
        Seen::Boolean(b) => Wire::Boolean(b),
        Seen::Unsigned(n) => Wire::Unsigned(n),
        Seen::Signed(n) => Wire::Signed(n),
        Seen::F32(bits) => Wire::F32(bits),
        Seen::F64(bits) => Wire::F64(bits),
        Seen::String(text) => Wire::String(text.to_owned()),
        Seen::Binary(bytes) => Wire::Binary(owned(bytes)),
        Seen::Array(items) => {
            let mut out: Vec<Wire> = Vec::new();
            let mut i: usize = 0;
            while i < items.len()
                invariant
                    i <= items@.len(),
                    out@.len() == i,
                    held(*value) == WireView::Array(all_held(items@)),
                    forall|j: int| 0 <= j < i ==> (#[trigger] out@[j])@ == held(items@[j]),
                decreases items.len() - i,
            {
                proof {
                    lemma_item_smaller(held(*value), i as int);
                }
                out.push(wire_of(&items[i]));
                i = i + 1;
            }
            proof {
                assert(items_view(out@) =~= all_held(items@));
            }
            let r = Wire::Array(out);
            assert(r@ == held(*value));
            r
        },
        Seen::Pairs(pairs) => {
            let mut out: Vec<(Wire, Wire)> = Vec::new();
            let mut i: usize = 0;
            while i < pairs.len()
                invariant
                    i <= pairs@.len(),
                    out@.len() == i,
                    held(*value) == WireView::Pairs(pairs_held(pairs@)),
                    forall|j: int|
                        0 <= j < i ==> (#[trigger] out@[j]).0@ == held(pairs@[j].0) && out@[j].1@ == held(pairs@[j].1),
                decreases pairs.len() - i,
            {
                proof {
                    lemma_pair_smaller(held(*value), i as int);
                }
                let key = wire_of(&pairs[i].0);
                let item = wire_of(&pairs[i].1);
                out.push((key, item));
                i = i + 1;
            }
            proof {
                assert(pairs_view(out@) =~= pairs_held(pairs@));
            }
            let r = Wire::Pairs(out);
            assert(r@ == held(*value));
            r
        },
        Seen::Ext(tag, bytes) => Wire::Ext(tag, owned(bytes)),
    }
}

/// An `rmpv::Value` for the bits of a float, in `count` bytes behind their marker.
fn float_of(marker: u8, bits: u64, count: usize) -> (r: Packed)
    requires
        (marker == 0xca && count == 4 && bits <= u32::MAX) || (marker == 0xcb && count == 8),
    ensures
        count == 4 ==> held(r) == WireView::F32(bits as u32),
        count == 8 ==> held(r) == WireView::F64(bits),
{
    let mut bytes: Vec<u8> = Vec::new();
    bytes.push(marker);
    push_number(&mut bytes, bits, count);
    proof {
        let written = bytes_of(bits as nat, count as nat);
        reveal_with_fuel(crate::bytes::reach, 9);
        crate::bytes::law_number_bytes(bits as nat, count as nat, Seq::empty());
        assert(bytes@.skip(1) =~= written);
    }
    read_float(&bytes)
}

/// A wire value as an `rmpv::Value`.
fn value_of(wire: &Wire) -> (r: Packed)
    ensures
        held(r) == wire@,
    decreases wire@,
{
    broadcast use lemma_wire_items;

    match wire {
        Wire::Nil => build(Layer::Nil),
        Wire::Boolean(b) => build(Layer::Boolean(*b)),
        Wire::Unsigned(n) => build(Layer::Unsigned(*n)),
        Wire::Signed(n) => build(Layer::Signed(*n)),
        Wire::F32(bits) => float_of(0xca, *bits as u64, 4),
        Wire::F64(bits) => float_of(0xcb, *bits, 8),
        Wire::String(text) => build(Layer::String(text.as_str().to_owned())),
        Wire::Binary(bytes) => build(Layer::Binary(copied_bytes(bytes))),
        Wire::Array(items) => {
            let mut out: Vec<Packed> = Vec::new();
            let mut i: usize = 0;
            while i < items.len()
                invariant
                    i <= items@.len(),
                    out@.len() == i,
                    wire@ == WireView::Array(items_view(items@)),
                    forall|j: int| 0 <= j < i ==> held(#[trigger] out@[j]) == items@[j]@,
                decreases items.len() - i,
            {
                proof {
                    lemma_item_smaller(wire@, i as int);
                }
                out.push(value_of(&items[i]));
                i = i + 1;
            }
            proof {
                assert(all_held(out@) =~= items_view(items@));
            }
            build(Layer::Array(out))
        },
        Wire::Pairs(pairs) => {
            let mut out: Vec<(Packed, Packed)> = Vec::new();
            let mut i: usize = 0;
            while i < pairs.len()
                invariant
                    i <= pairs@.len(),
                    out@.len() == i,
                    wire@ == WireView::Pairs(pairs_view(pairs@)),
                    forall|j: int|
                        0 <= j < i ==> held((#[trigger] out@[j]).0) == pairs@[j].0@ && held(out@[j].1) == pairs@[j].1@,
                decreases pairs.len() - i,
            {
                proof {
                    lemma_pair_smaller(wire@, i as int);
                }
                let key = value_of(&pairs[i].0);
                let item = value_of(&pairs[i].1);
                out.push((key, item));
                i = i + 1;
            }
            proof {
                assert(pairs_held(out@) =~= pairs_view(pairs@));
            }
            build(Layer::Pairs(out))
        },
        Wire::Ext(tag, bytes) => build(Layer::Ext(*tag, copied_bytes(bytes))),
    }
}

/// Why some bytes are not one value.
pub enum Unreadable {
    Truncated,
    TooDeep,
    Other(String),
}

/// What a reading of one value says.
pub open spec fn read_view(read: Result<(Wire, usize), Unreadable>) -> Unpacked {
    match read {
        Ok((value, left)) => Unpacked::Value { value: value@, left: left as nat },
        Err(Unreadable::Truncated) => Unpacked::Truncated,
        Err(Unreadable::TooDeep) => Unpacked::TooDeep,
        Err(Unreadable::Other(message)) => Unpacked::Other(message@),
    }
}

/// Read one value off the front of some bytes, with room for fewer than `depth` levels: the value,
/// and how many bytes are left behind it.
pub fn unpack(bytes: &Vec<u8>, depth: usize) -> (r: Result<(Wire, usize), Unreadable>)
    requires
        1 <= depth <= 1024,
    ensures
        read_view(r) == unpacked(bytes@, depth as nat),
        r matches Ok(read) ==> read.1 <= bytes@.len() && nesting(read.0@) < depth,
{
    match read_value(bytes, depth) {
        Reading::Value(value, left) => Ok((wire_of(&value), left)),
        Reading::Truncated => Err(Unreadable::Truncated),
        Reading::TooDeep => Err(Unreadable::TooDeep),
        Reading::Other(message) => Err(Unreadable::Other(message)),
    }
}

/// Write a value. Bytes that come out read back as the value.
pub fn pack(value: &Wire) -> (r: Result<Vec<u8>, String>)
    requires
        nesting(value@) <= 1024,
    ensures
        r matches Ok(bytes) ==> bytes@ == packed(value@) && bytes@.len() > 0,
        r matches Ok(bytes) ==> countable(value@) ==> bytes@.len() == encoded_len(value@),
        r matches Ok(bytes) ==> countable(value@) ==> forall|depth: nat|
            nesting(value@) < depth <= 1024 ==> #[trigger] unpacked(bytes@, depth) == (Unpacked::Value {
                value: value@,
                left: 0,
            }),
{
    let built = value_of(value);
    write_value(&built)
}

/// How `rmpv` displays a value.
pub uninterp spec fn shown(value: WireView) -> Seq<char>;

/// `<rmpv::Value as Display>::fmt`, through `to_string`: the text depends on the value alone. It
/// recurses once for every level, so the value nests at most 1024 deep.
#[verifier::external_body]
fn display(value: &Packed) -> (r: String)
    requires
        nesting(held(*value)) <= 1024,
    ensures
        r@ == shown(held(*value)),
{
    value.to_string()
}

/// A value for a human.
pub fn show(value: &Wire) -> (r: String)
    requires
        nesting(value@) <= 1024,
    ensures
        r@ == shown(value@),
{
    let built = value_of(value);
    display(&built)
}

} // verus!
