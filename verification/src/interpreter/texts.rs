//! The strings that an execution's values hold.
//!
//! Every string that is made gets a number, which its copies share. A string counts once towards the
//! memory ceiling however many values hold it, for as long as any value does; two strings that were
//! made apart count each on its own, whatever they say.

use vstd::prelude::*;
use vstd::multiset::Multiset;
use vstd::multiset::group_multiset_axioms;
use vstd::std_specs::hash::group_hash_axioms;
use vstd::utf8::encode_utf8;
use std::collections::HashMap;
use std::sync::Arc;
use crate::interpreter::heap::RtValue;
use crate::interpreter::heap::RtView;
use crate::interpreter::heap::TEXT_OVERHEAD;
use crate::interpreter::heap::counts;
use crate::interpreter::heap::difference;
use crate::interpreter::heap::sum;
use crate::interpreter::heap::text_bytes;
use crate::text::same;

verus! {

/// The strings held once a value is held too.
pub open spec fn with_text(held: Multiset<(Seq<char>, u64)>, value: RtView) -> Multiset<(Seq<char>, u64)> {
    match value {
        RtView::String(text, number) => held.insert((text, number)),
        _ => held,
    }
}

/// The strings held once a value is let go.
pub open spec fn without_text(held: Multiset<(Seq<char>, u64)>, value: RtView) -> Multiset<(Seq<char>, u64)> {
    match value {
        RtView::String(text, number) => held.remove((text, number)),
        _ => held,
    }
}

/// Whether a value's string, if it has one, is held.
pub open spec fn holds_text(held: Multiset<(Seq<char>, u64)>, value: RtView) -> bool {
    value matches RtView::String(text, number) ==> held.count((text, number)) > 0
}

/// The strings that the first `n` values hold, each as often as values hold it.
pub open spec fn held_by(values: Seq<RtView>, n: int) -> Multiset<(Seq<char>, u64)>
    decreases n,
{
    if n <= 0 {
        Multiset::empty()
    } else {
        with_text(held_by(values, n - 1), values[n - 1])
    }
}

/// What a string counts towards the memory ceiling.
pub open spec fn text_weight(text: Seq<char>) -> int {
    TEXT_OVERHEAD + encode_utf8(text).len()
}

/// What a set of strings counts.
pub open spec fn weight(texts: Set<(Seq<char>, u64)>) -> int
    decreases texts.len(),
    when texts.finite()
{
    if texts.len() == 0 {
        0
    } else {
        text_weight(texts.choose().0) + weight(texts.remove(texts.choose()))
    }
}

/// A string that is not there yet adds its own weight.
pub proof fn lemma_weight_insert(texts: Set<(Seq<char>, u64)>, text: (Seq<char>, u64))
    requires
        texts.finite(),
        !texts.contains(text),
    ensures
        weight(texts.insert(text)) == weight(texts) + text_weight(text.0),
    decreases texts.len(),
{
    let all = texts.insert(text);
    let one = all.choose();
    assert(all.len() > 0);
    assert(all.contains(one));
    if one == text {
        assert(all.remove(one) =~= texts);
    } else {
        let rest = texts.remove(one);
        assert(all.remove(one) =~= rest.insert(text));
        lemma_weight_insert(rest, text);
        assert(rest.insert(one) =~= texts);
        lemma_weight_insert(rest, one);
    }
}

/// Counting values up to `n` looks at no value behind them.
pub proof fn lemma_held_prefix(a: Seq<RtView>, b: Seq<RtView>, n: int)
    requires
        n <= a.len(),
        n <= b.len(),
        forall|i: int| 0 <= i < n ==> a[i] == b[i],
    ensures
        held_by(a, n) == held_by(b, n),
    decreases n,
{
    if n > 0 {
        lemma_held_prefix(a, b, n - 1);
    }
}

/// Replacing a value lets the old one go and holds the new one.
pub proof fn lemma_held_update(values: Seq<RtView>, i: int, value: RtView, n: int)
    requires
        0 <= i < n <= values.len(),
    ensures
        held_by(values.update(i, value), n) == with_text(without_text(held_by(values, n), values[i]), value),
        holds_text(held_by(values, n), values[i]),
    decreases n,
{
    broadcast use group_multiset_axioms;

    let after = values.update(i, value);
    if i == n - 1 {
        lemma_held_prefix(values, after, n - 1);
    } else {
        lemma_held_update(values, i, value, n - 1);
    }
    assert(held_by(after, n) =~= with_text(without_text(held_by(values, n), values[i]), value));
}

/// What is held stays held when more values are looked at.
pub proof fn lemma_held_grows(values: Seq<RtView>, m: int, n: int)
    requires
        m <= n <= values.len(),
    ensures
        held_by(values, m).subset_of(held_by(values, n)),
    decreases n - m,
{
    broadcast use group_multiset_axioms;

    if m < n {
        lemma_held_grows(values, m, n - 1);
    }
}

/// A string with some number, and its holders.
struct Holding {
    text: Arc<str>,
    /// One unit for each holder: units take no room, and their count does not wrap.
    holders: Vec<()>,
}

/// How many holders a text has among some strings with one number.
spec fn tally(list: Seq<Holding>, text: Seq<char>) -> nat
    decreases list.len(),
{
    if list.len() == 0 {
        0
    } else {
        tally(list.drop_last(), text) + (if (*list.last().text)@ == text {
            list.last().holders@.len()
        } else {
            0
        })
    }
}

proof fn lemma_tally_push(list: Seq<Holding>, one: Holding, text: Seq<char>)
    ensures
        tally(list.push(one), text) == tally(list, text) + (if (*one.text)@ == text {
            one.holders@.len()
        } else {
            0
        }),
{
    assert(list.push(one).drop_last() =~= list);
}

proof fn lemma_tally_update(list: Seq<Holding>, i: int, one: Holding, text: Seq<char>)
    requires
        0 <= i < list.len(),
    ensures
        tally(list.update(i, one), text) == tally(list, text) - (if (*list[i].text)@ == text {
            list[i].holders@.len() as int
        } else {
            0
        }) + (if (*one.text)@ == text {
            one.holders@.len()
        } else {
            0
        }),
        (*list[i].text)@ == text ==> tally(list, text) >= list[i].holders@.len(),
    decreases list.len(),
{
    let after = list.update(i, one);
    if i == list.len() - 1 {
        assert(after.drop_last() =~= list.drop_last());
    } else {
        lemma_tally_update(list.drop_last(), i, one, text);
        assert(after.drop_last() =~= list.drop_last().update(i, one));
    }
}

/// A text that no string says has no holder.
proof fn lemma_tally_none(list: Seq<Holding>, text: Seq<char>)
    requires
        forall|i: int| 0 <= i < list.len() ==> (*(#[trigger] list[i]).text)@ != text,
    ensures
        tally(list, text) == 0,
    decreases list.len(),
{
    if list.len() > 0 {
        assert((*list[list.len() - 1].text)@ != text);
        assert forall|i: int| 0 <= i < list.len() - 1 implies (*(#[trigger] list.drop_last()[i]).text)@ != text by {
            assert(list.drop_last()[i] == list[i]);
        }
        lemma_tally_none(list.drop_last(), text);
    }
}

/// The held strings by their numbers, each with its holders.
pub struct Texts {
    table: HashMap<u64, Vec<Holding>>,
    bytes: u64,
    held: Ghost<Multiset<(Seq<char>, u64)>>,
}

impl View for Texts {
    type V = Multiset<(Seq<char>, u64)>;

    closed spec fn view(&self) -> Multiset<(Seq<char>, u64)> {
        self.held@
    }
}

/// `Arc::ptr_eq`: whether two texts are one allocation. If they are, they say the same; nothing is said
/// of texts that are not.
#[verifier::external_body]
fn one_allocation(a: &Arc<str>, b: &Arc<str>) -> (r: bool)
    ensures
        r ==> (**a)@ == (**b)@,
{
    Arc::ptr_eq(a, b)
}

fn find(list: &Vec<Holding>, text: &Arc<str>) -> (r: Option<usize>)
    ensures
        match r {
            Some(i) => i < list@.len() && (*list@[i as int].text)@ == (**text)@,
            None => forall|i: int| 0 <= i < list@.len() ==> (*(#[trigger] list@[i]).text)@ != (**text)@,
        },
{
    let mut i: usize = 0;
    while i < list.len()
        invariant
            i <= list@.len(),
            forall|k: int| 0 <= k < i ==> (*(#[trigger] list@[k]).text)@ != (**text)@,
        decreases list.len() - i,
    {
        if one_allocation(&list[i].text, text) || same(&list[i].text, text) {
            return Some(i);
        }
        i = i + 1;
    }
    None
}

impl Texts {
    /// How many holders the table has for a string.
    spec fn tallied(self, text: Seq<char>, number: u64) -> nat {
        if self.table@.dom().contains(number) {
            tally(self.table@[number]@, text)
        } else {
            0
        }
    }

    /// The strings are those that are held, each with its holders, and the count is what they weigh.
    pub closed spec fn wf(self) -> bool {
        &&& forall|text: Seq<char>, number: u64| #[trigger]
            self@.count((text, number)) == self.tallied(text, number)
        &&& forall|number: u64, i: int|
            self.table@.dom().contains(number) && 0 <= i < self.table@[number]@.len() ==> (
            #[trigger] self.table@[number]@[i]).holders@.len() > 0
        &&& counts(self.bytes, weight(self@.dom()))
    }

    /// No strings.
    pub fn new() -> (r: Self)
        ensures
            r.wf(),
            r@ == Multiset::<(Seq<char>, u64)>::empty(),
    {
        broadcast use {group_multiset_axioms, group_hash_axioms};

        let r = Texts { table: HashMap::new(), bytes: 0, held: Ghost(Multiset::empty()) };
        assert(r@.dom() =~= Set::<(Seq<char>, u64)>::empty());
        r
    }

    /// What the held strings count, each once.
    pub fn bytes(&self) -> (r: u64)
        requires
            self.wf(),
        ensures
            counts(r, weight(self@.dom())),
    {
        self.bytes
    }

    /// Hold a value.
    pub fn hold(&mut self, value: &RtValue)
        requires
            old(self).wf(),
        ensures
            final(self).wf(),
            final(self)@ == with_text(old(self)@, value@),
    {
        broadcast use {group_multiset_axioms, group_hash_axioms};

        if let RtValue::String(text, number) = value {
            let ghost chars = (**text)@;
            let ghost before = *self;
            let ghost one = (chars, *number);
            let mut list = match self.table.remove(number) {
                Some(list) => list,
                None => Vec::new(),
            };
            let ghost had = list@;
            assert(tally(had, chars) == before@.count(one));
            match find(&list, text) {
                Some(i) => {
                    list[i].holders.push(());
                    proof {
                        assert(list@ =~= had.update(i as int, list@[i as int]));
                        assert forall|other: Seq<char>| #[trigger]
                            tally(list@, other) == tally(had, other) + (if other == chars { 1nat } else { 0 }) by {
                            lemma_tally_update(had, i as int, list@[i as int], other);
                        }
                        lemma_tally_update(had, i as int, list@[i as int], chars);
                        assert(had[i as int].holders@.len() > 0);
                        assert(before@.count(one) > 0);
                        assert(before@.insert(one).dom() =~= before@.dom());
                    }
                },
                None => {
                    let mut holders: Vec<()> = Vec::new();
                    holders.push(());
                    list.push(Holding { text: text.clone(), holders });
                    self.bytes = sum(self.bytes, weigh(text), Ghost(weight(before@.dom())), Ghost(text_weight(chars)));
                    proof {
                        assert forall|other: Seq<char>| #[trigger]
                            tally(list@, other) == tally(had, other) + (if other == chars { 1nat } else { 0 }) by {
                            lemma_tally_push(had, list@[list@.len() - 1], other);
                        }
                        lemma_tally_none(had, chars);
                        assert(before@.insert(one).dom() =~= before@.dom().insert(one));
                        lemma_weight_insert(before@.dom(), one);
                    }
                },
            }
            self.table.insert(*number, list);
            proof {
                self.held@ = before@.insert(one);
                lemma_held(before, *self, one, had, list@);
            }
        }
    }

    /// Let a held value go. A string that no other value holds goes with it.
    pub fn let_go(&mut self, value: &RtValue)
        requires
            old(self).wf(),
            holds_text(old(self)@, value@),
        ensures
            final(self).wf(),
            final(self)@ == without_text(old(self)@, value@),
    {
        broadcast use {group_multiset_axioms, group_hash_axioms};

        if let RtValue::String(text, number) = value {
            let ghost chars = (**text)@;
            let ghost before = *self;
            let ghost one = (chars, *number);
            let mut list = match self.table.remove(number) {
                Some(list) => list,
                None => Vec::new(),
            };
            let ghost had = list@;
            assert(tally(had, chars) == before@.count(one));
            if let Some(i) = find(&list, text) {
                list[i].holders.pop();
                proof {
                    assert(list@ =~= had.update(i as int, list@[i as int]));
                    assert forall|other: Seq<char>| #[trigger]
                        tally(list@, other) == tally(had, other) - (if other == chars { 1int } else { 0 }) by {
                        lemma_tally_update(had, i as int, list@[i as int], other);
                    }
                }
                if list[i].holders.len() == 0 {
                    let ghost emptied = list@;
                    list.swap_remove(i);
                    proof {
                        assert forall|other: Seq<char>| #[trigger] tally(list@, other) == tally(emptied, other) by {
                            lemma_tally_removed(emptied, i as int, other);
                        }
                    }
                }
            } else {
                proof {
                    lemma_tally_none(had, chars);
                }
            }
            let gone = find(&list, text).is_none();
            let emptied = list.len() == 0;
            let ghost left = list@;
            proof {
                self.held@ = before@.remove(one);
            }
            if gone {
                self.bytes = difference(self.bytes, weigh(text), Ghost(weight(before@.dom())), Ghost(text_weight(chars)));
                proof {
                    lemma_tally_none(left, chars);
                    assert(before@.remove(one).dom() =~= before@.dom().remove(one));
                    lemma_weight_insert(before@.dom().remove(one), one);
                    assert(before@.dom().remove(one).insert(one) =~= before@.dom());
                }
            } else {
                proof {
                    lemma_tally_some(left, chars);
                    assert(before@.remove(one).dom() =~= before@.dom());
                }
            }
            if !emptied {
                self.table.insert(*number, list);
            }
            proof {
                lemma_held(before, *self, one, had, left);
            }
        }
    }
}

/// A text that some string with a holder says has a holder.
proof fn lemma_tally_some(list: Seq<Holding>, text: Seq<char>)
    requires
        forall|i: int| 0 <= i < list.len() ==> (#[trigger] list[i]).holders@.len() > 0,
        exists|i: int| 0 <= i < list.len() && (*(#[trigger] list[i]).text)@ == text,
    ensures
        tally(list, text) > 0,
{
    let i = choose|i: int| 0 <= i < list.len() && (*(#[trigger] list[i]).text)@ == text;
    lemma_tally_update(list, i, list[i], text);
}

/// Taking out a string without holders changes no tally.
proof fn lemma_tally_removed(list: Seq<Holding>, i: int, text: Seq<char>)
    requires
        0 <= i < list.len(),
        list[i].holders@.len() == 0,
    ensures
        tally(list.update(i, list.last()).drop_last(), text) == tally(list, text),
{
    let moved = list.update(i, list.last());
    if i == list.len() - 1 {
        assert(moved.drop_last() =~= list.drop_last());
    } else {
        lemma_tally_update(list, i, list.last(), text);
        assert(moved.last() == list.last());
    }
}

/// A table that differs from a right one in the strings with one number is right, if those are.
proof fn lemma_held(before: Texts, after: Texts, one: (Seq<char>, u64), had: Seq<Holding>, left: Seq<Holding>)
    requires
        before.wf(),
        forall|text: Seq<char>| #[trigger] before.tallied(text, one.1) == tally(had, text),
        after@ == before@.insert(one) || (after@ == before@.remove(one) && before@.count(one) > 0),
        forall|text: Seq<char>|
            text != one.0 ==> #[trigger] tally(left, text) == tally(had, text),
        tally(left, one.0) == after@.count(one),
        forall|i: int| 0 <= i < left.len() ==> (#[trigger] left[i]).holders@.len() > 0,
        left.len() > 0 ==> after.table@.dom().contains(one.1) && after.table@[one.1]@ == left,
        left.len() == 0 ==> !after.table@.dom().contains(one.1),
        forall|number: u64|
            number != one.1 ==> #[trigger] after.table@.dom().contains(number) == before.table@.dom().contains(number),
        forall|number: u64|
            number != one.1 && before.table@.dom().contains(number) ==> #[trigger] after.table@[number]
                == before.table@[number],
        counts(after.bytes, weight(after@.dom())),
    ensures
        after.wf(),
{
    broadcast use group_multiset_axioms;

    assert forall|text: Seq<char>, number: u64| #[trigger]
        after@.count((text, number)) == after.tallied(text, number) by {
        assert(before@.count((text, number)) == before.tallied(text, number));
        if number == one.1 {
            assert(before.tallied(text, one.1) == tally(had, text));
            if text != one.0 {
                assert(tally(left, text) == tally(had, text));
            }
        } else {
            assert(after.table@.dom().contains(number) == before.table@.dom().contains(number));
        }
    }
    assert forall|number: u64, i: int|
        after.table@.dom().contains(number) && 0 <= i < after.table@[number]@.len() implies (
    #[trigger] after.table@[number]@[i]).holders@.len() > 0 by {
        if number == one.1 {
            assert(left[i].holders@.len() > 0);
        } else {
            assert(after.table@.dom().contains(number) == before.table@.dom().contains(number));
            assert(before.table@[number]@[i].holders@.len() > 0);
        }
    }
}

/// What a string counts.
fn weigh(text: &str) -> (r: u64)
    ensures
        counts(r, text_weight(text@)),
{
    sum(TEXT_OVERHEAD as u64, text_bytes(text), Ghost(TEXT_OVERHEAD as int), Ghost(encode_utf8(text@).len() as int))
}

} // verus!
