//! Decoding an `Init` payload into what a Session is created from.
//!
//! A Backend is owed the exact key or index that was wrong.

use vstd::prelude::*;
use crate::fields::Pair;
use crate::fields::PairView;
use crate::fields::present;
use crate::fields::read_two;
use crate::fields::there;
use crate::fields::two_fields;
use crate::message_pack::show;
use crate::message_pack::shown;
use crate::table::Table;
use crate::table::at;
use crate::table::has_key;
use crate::table::share;
use crate::text::bounded_to;
use crate::text::bounded_to_spec;
use crate::text::decimal;
use crate::text::push_decimal;
use crate::wire::Wire;
use crate::wire::WireView;
use crate::wire::items_view;
use crate::wire::lemma_items_nesting;
use crate::wire::lemma_pairs_nesting;
use crate::wire::lemma_wire_items;
use crate::wire::nesting;
use crate::wire::pairs_view;

verus! {

/// The most characters of a Backend's input that a refusal echoes.
pub const ECHO_LIMIT: usize = 64;

/// The most offending `config` keys that a refusal lists.
pub const LISTED_KEYS: usize = 3;

/// The per-backend Config. No keys are defined, so a Config is empty, and a `config` that names any
/// key is refused.
#[derive(Debug, PartialEq, Eq, Structural)]
#[non_exhaustive]
pub struct Config {}

/// A function that the Backend exposes to its Scripts, with its grant.
#[derive(Debug, Clone)]
pub struct RegisteredFunction {
    name: String,
    blanket: bool,
}

impl View for RegisteredFunction {
    type V = (Seq<char>, bool);

    closed spec fn view(&self) -> (Seq<char>, bool) {
        (self.name@, self.blanket)
    }
}

impl RegisteredFunction {
    /// The name that a Script calls it by.
    pub fn name(&self) -> (r: &str)
        ensures
            r@ == self@.0,
    {
        self.name.as_str()
    }

    /// Whether the Backend granted it blanket.
    pub fn blanket(&self) -> (r: bool)
        ensures
            r == self@.1,
    {
        self.blanket
    }
}

/// What some registrations say.
pub open spec fn registration_views(list: Seq<RegisteredFunction>) -> Seq<(Seq<char>, bool)> {
    Seq::new(list.len(), |i: int| list[i]@)
}

/// A decoded, valid `Init` payload.
#[derive(Debug)]
pub struct InitRequest {
    config: Config,
    registrations: Vec<RegisteredFunction>,
}

impl View for InitRequest {
    type V = Seq<(Seq<char>, bool)>;

    closed spec fn view(&self) -> Seq<(Seq<char>, bool)> {
        registration_views(self.registrations@)
    }
}

/// Why an `Init` payload was refused.
#[derive(Debug, Clone)]
pub struct InitError {
    message: String,
}

impl View for InitError {
    type V = Seq<char>;

    closed spec fn view(&self) -> Seq<char> {
        self.message@
    }
}

impl InitError {
    fn new(message: String) -> (r: Self)
        ensures
            r@ == message@,
    {
        InitError { message }
    }

    /// What exactly was wrong.
    pub fn message(&self) -> (r: &str)
        ensures
            r@ == self@,
    {
        self.message.as_str()
    }
}

/// A key as a Backend would recognise it, bounded: a string in backticks, anything else as the value
/// that it is.
pub open spec fn described(key: WireView) -> Seq<char> {
    match key {
        WireView::String(text) => "`"@ + bounded_to_spec(text, ECHO_LIMIT as int) + "`"@,
        other => bounded_to_spec(shown(other), ECHO_LIMIT as int) + " (not a string)"@,
    }
}

fn bounded(text: &str) -> (r: String)
    ensures
        r@ == bounded_to_spec(text@, ECHO_LIMIT as int),
{
    bounded_to(text, ECHO_LIMIT)
}

fn describe_key(key: &Wire) -> (r: String)
    requires
        nesting(key@) <= 1024,
    ensures
        r@ == described(key@),
{
    match key.as_str() {
        Some(text) => {
            let mut out = "`".to_owned();
            out.append(bounded(text).as_str());
            out.append("`");
            out
        },
        None => {
            let mut out = bounded(show(key).as_str());
            out.append(" (not a string)");
            out
        },
    }
}

/// The place of a registration.
pub open spec fn entry_place(index: int) -> Seq<char> {
    "`registrations["@ + decimal(index as nat) + "]`"@
}

/// The place of a registration's field.
pub open spec fn field_place(index: int, name: Seq<char>) -> Seq<char> {
    "`registrations["@ + decimal(index as nat) + "]."@ + name + "`"@
}

/// What one registration says, or what is wrong with it.
pub open spec fn decoded_entry(entry: WireView, index: int) -> Result<(Seq<char>, bool), Seq<char>> {
    match entry {
        WireView::Pairs(fields) => match two_fields(fields, "name"@, "blanket"@, fields.len() as int) {
            PairView::Unknown(i) => Err(entry_place(index) + " has an unknown key "@ + described(fields[i].0)),
            PairView::Repeated(i) => Err(entry_place(index) + " repeats the key `"@ + fields[i].0->String_0 + "`"@),
            PairView::Fields(name, blanket) => if blanket is Some && !(blanket->0 is Boolean) {
                Err(field_place(index, "blanket"@) + " is not a boolean"@)
            } else {
                match name {
                    None => Err(field_place(index, "name"@) + " is missing"@),
                    Some(WireView::String(text)) => if text.len() == 0 {
                        Err(field_place(index, "name"@) + " is empty"@)
                    } else {
                        Ok((text, blanket is Some && blanket->0->Boolean_0))
                    },
                    Some(_) => Err(field_place(index, "name"@) + " is not a string"@),
                }
            },
        },
        _ => Err(entry_place(index) + " is not a map"@),
    }
}

/// What the first `n` registrations say, or the first thing that is wrong with them.
pub open spec fn decoded_entries(entries: Seq<WireView>, n: int) -> Result<Seq<(Seq<char>, bool)>, Seq<char>>
    decreases n,
{
    if n <= 0 {
        Ok(Seq::empty())
    } else {
        match decoded_entries(entries, n - 1) {
            Err(message) => Err(message),
            Ok(list) => match decoded_entry(entries[n - 1], n - 1) {
                Err(message) => Err(message),
                Ok((name, blanket)) => if has_key(list, name) {
                    Err(
                        "`"@ + bounded_to_spec(name, ECHO_LIMIT as int) + "` is registered twice, at "@ + entry_place(
                            at(list, name),
                        ) + " and "@ + entry_place(n - 1),
                    )
                } else {
                    Ok(list.push((name, blanket)))
                },
            },
        }
    }
}

/// What the registrations of a payload say.
pub open spec fn decoded_registrations(value: WireView) -> Result<Seq<(Seq<char>, bool)>, Seq<char>> {
    match value {
        WireView::Array(entries) => decoded_entries(entries, entries.len() as int),
        _ => Err("`registrations` is not an array"@),
    }
}

/// The first `n` keys, described and joined.
pub open spec fn listed_keys(fields: Seq<(WireView, WireView)>, n: int) -> Seq<char>
    decreases n,
{
    if n <= 0 {
        Seq::empty()
    } else if n == 1 {
        described(fields[0].0)
    } else {
        listed_keys(fields, n - 1) + ", "@ + described(fields[n - 1].0)
    }
}

/// What is wrong with a Config, if anything is.
pub open spec fn config_problem(value: WireView) -> Option<Seq<char>> {
    match value {
        WireView::Pairs(fields) => if fields.len() == 0 {
            None
        } else {
            let listed = if fields.len() < LISTED_KEYS {
                fields.len() as int
            } else {
                LISTED_KEYS as int
            };
            let more = if fields.len() > LISTED_KEYS {
                " and "@ + decimal((fields.len() - LISTED_KEYS) as nat) + " more"@
            } else {
                ""@
            };
            Some("`config` accepts no keys yet; found "@ + listed_keys(fields, listed) + more)
        },
        _ => Some("`config` is not a map"@),
    }
}

/// The fields of a payload, when it is a map or nil.
pub open spec fn payload_fields(payload: WireView) -> Option<Seq<(WireView, WireView)>> {
    match payload {
        WireView::Nil => Some(Seq::empty()),
        WireView::Pairs(fields) => Some(fields),
        _ => None,
    }
}

/// What an `Init` payload says, or the first thing that is wrong with it.
pub open spec fn decoded_init(payload: WireView) -> Result<Seq<(Seq<char>, bool)>, Seq<char>> {
    match payload_fields(payload) {
        None => Err("the `Init` payload must be a map with `config` and `registrations`"@),
        Some(fields) => match two_fields(fields, "config"@, "registrations"@, fields.len() as int) {
            PairView::Unknown(i) => Err("the `Init` payload has an unknown key "@ + described(fields[i].0)),
            PairView::Repeated(i) => Err("the `Init` payload repeats the key "@ + described(fields[i].0)),
            PairView::Fields(config, registrations) => match (there(config), there(registrations)) {
                (None, Some(_)) => Err("the `Init` payload is missing `config`"@),
                (Some(_), None) => Err("the `Init` payload is missing `registrations`"@),
                (None, None) => Err("the `Init` payload is missing `config` and `registrations`"@),
                (Some(config), Some(registrations)) => match config_problem(config) {
                    Some(message) => Err(message),
                    None => decoded_registrations(registrations),
                },
            },
        },
    }
}

fn place_of(index: usize) -> (r: String)
    ensures
        r@ == entry_place(index as int),
{
    let mut out = "`registrations[".to_owned();
    push_decimal(&mut out, index as u64);
    out.append("]`");
    out
}

fn place_of_field(index: usize, name: &str) -> (r: String)
    ensures
        r@ == field_place(index as int, name@),
{
    let mut out = "`registrations[".to_owned();
    push_decimal(&mut out, index as u64);
    out.append("].");
    out.append(name);
    out.append("`");
    out
}

fn failed(place: String, reason: &str) -> (r: InitError)
    ensures
        r@ == place@ + reason@,
{
    let mut message = place;
    message.append(reason);
    InitError::new(message)
}

fn decode_entry(entry: &Wire, index: usize) -> (r: Result<RegisteredFunction, InitError>)
    requires
        nesting(entry@) <= 1024,
    ensures
        match (r, decoded_entry(entry@, index as int)) {
            (Ok(registration), Ok(wanted)) => registration@ == wanted,
            (Err(error), Err(message)) => error@ == message,
            _ => false,
        },
{
    broadcast use lemma_wire_items;

    let fields = match entry {
        Wire::Pairs(fields) => fields,
        _ => {
            return Err(failed(place_of(index), " is not a map"));
        },
    };
    let ghost views = pairs_view(fields@);
    let (name, blanket) = match read_two(fields, "name", "blanket") {
        Pair::Unknown(i) => {
            proof {
                assert(views[i as int].0 == fields@[i as int].0@);
                lemma_pairs_nesting(views, views.len() as int, i as int);
            }
            let mut message = place_of(index);
            message.append(" has an unknown key ");
            message.append(describe_key(&fields[i].0).as_str());
            return Err(InitError::new(message));
        },
        Pair::Repeated(i) => {
            proof {
                assert(views[i as int].0 == fields@[i as int].0@);
            }
            let mut message = place_of(index);
            message.append(" repeats the key `");
            if let Some(key) = fields[i].0.as_str() {
                message.append(key);
            }
            message.append("`");
            return Err(InitError::new(message));
        },
        Pair::Fields(name, blanket) => (name, blanket),
    };
    let granted = match blanket {
        None => false,
        Some(Wire::Boolean(granted)) => *granted,
        Some(_) => {
            return Err(failed(place_of_field(index, "blanket"), " is not a boolean"));
        },
    };
    let name = match name {
        None => {
            return Err(failed(place_of_field(index, "name"), " is missing"));
        },
        Some(name) => match name.as_str() {
            Some(name) => name,
            None => {
                return Err(failed(place_of_field(index, "name"), " is not a string"));
            },
        },
    };
    if name.unicode_len() == 0 {
        return Err(failed(place_of_field(index, "name"), " is empty"));
    }
    Ok(RegisteredFunction { name: name.to_owned(), blanket: granted })
}

proof fn lemma_stays_wrong(entries: Seq<WireView>, k: int, n: int)
    requires
        0 <= k <= n,
    ensures
        decoded_entries(entries, k) is Err ==> decoded_entries(entries, n) == decoded_entries(entries, k),
    decreases n - k,
{
    if k < n {
        lemma_stays_wrong(entries, k, n - 1);
    }
}

proof fn lemma_one_place<A, B>(a: Seq<(Seq<char>, A)>, b: Seq<(Seq<char>, B)>, name: Seq<char>)
    requires
        a.len() == b.len(),
        forall|i: int| 0 <= i < a.len() ==> (#[trigger] a[i]).0 == b[i].0,
        crate::table::distinct(a),
        has_key(b, name),
    ensures
        has_key(a, name),
        at(a, name) == at(b, name),
{
    let i = at(b, name);
    assert(a[i].0 == name);
    let j = at(a, name);
    assert(a[j].0 == name);
}

/// Decode the registrations.
pub fn decode_registrations(value: &Wire) -> (r: Result<Vec<RegisteredFunction>, InitError>)
    requires
        nesting(value@) <= 1024,
    ensures
        match (r, decoded_registrations(value@)) {
            (Ok(list), Ok(wanted)) => registration_views(list@) == wanted,
            (Err(error), Err(message)) => error@ == message,
            _ => false,
        },
{
    broadcast use lemma_wire_items;

    let entries = match value {
        Wire::Array(entries) => entries,
        _ => {
            return Err(InitError::new("`registrations` is not an array".to_owned()));
        },
    };
    let ghost views = items_view(entries@);
    let mut list: Vec<RegisteredFunction> = Vec::new();
    let mut seen: Table<usize> = Table::new();
    let mut i: usize = 0;
    proof {
        assert(registration_views(list@) =~= Seq::empty());
    }
    while i < entries.len()
        invariant
            i <= entries@.len(),
            list@.len() == i,
            views == items_view(entries@),
            value@ == WireView::Array(views),
            nesting(value@) <= 1024,
            decoded_entries(views, i as int) == Ok::<Seq<(Seq<char>, bool)>, Seq<char>>(registration_views(list@)),
            seen@.len() == i,
            crate::table::distinct(seen@),
            forall|k: int| 0 <= k < i ==> (#[trigger] seen@[k]).0 == registration_views(list@)[k].0 && seen@[k].1 == k,
        decreases entries.len() - i,
    {
        let ghost so_far = registration_views(list@);
        proof {
            assert(views[i as int] == entries@[i as int]@);
            lemma_items_nesting(views, views.len() as int, i as int);
            lemma_stays_wrong(views, i + 1, views.len() as int);
            assert forall|k: int| 0 <= k < i implies (#[trigger] seen@[k]).0 == so_far[k].0 by {}
        }
        let registration = decode_entry(&entries[i], i)?;
        if let Some(first) = seen.get(registration.name.as_str()) {
            proof {
                let name = registration@.0;
                let k = at(seen@, name);
                assert(so_far[k].0 == name);
                lemma_one_place(seen@, so_far, name);
            }
            let mut message = "`".to_owned();
            message.append(bounded(registration.name.as_str()).as_str());
            message.append("` is registered twice, at ");
            message.append(place_of(*first).as_str());
            message.append(" and ");
            message.append(place_of(i).as_str());
            return Err(InitError::new(message));
        }
        let ghost known = seen@;
        seen.insert(share(registration.name.as_str()), i);
        proof {
            let name = registration@.0;
            if has_key(so_far, name) {
                lemma_one_place(known, so_far, name);
            }
            crate::table::lemma_put_distinct(known, name, i);
            assert(seen@ == known.push((name, i)));
        }
        list.push(registration);
        proof {
            assert(registration_views(list@) =~= so_far.push(registration@));
        }
        i = i + 1;
    }
    Ok(list)
}

/// Decode a Config.
pub fn decode_config(value: &Wire) -> (r: Result<Config, InitError>)
    requires
        nesting(value@) <= 1024,
    ensures
        match (r, config_problem(value@)) {
            (Ok(_), None) => true,
            (Err(error), Some(message)) => error@ == message,
            _ => false,
        },
{
    broadcast use lemma_wire_items;

    let fields = match value {
        Wire::Pairs(fields) => fields,
        _ => {
            return Err(InitError::new("`config` is not a map".to_owned()));
        },
    };
    if fields.len() == 0 {
        return Ok(Config {});
    }
    let ghost views = pairs_view(fields@);
    let mut message = "`config` accepts no keys yet; found ".to_owned();
    let ghost head = message@;
    let listed: usize = if fields.len() < LISTED_KEYS {
        fields.len()
    } else {
        LISTED_KEYS
    };
    let mut i: usize = 0;
    proof {
        assert(message@ =~= head + listed_keys(views, 0));
    }
    while i < listed
        invariant
            i <= listed <= fields@.len(),
            views == pairs_view(fields@),
            value@ == WireView::Pairs(views),
            nesting(value@) <= 1024,
            message@ == head + listed_keys(views, i as int),
        decreases listed - i,
    {
        proof {
            assert(views[i as int].0 == fields@[i as int].0@);
            lemma_pairs_nesting(views, views.len() as int, i as int);
        }
        let ghost before = message@;
        if i > 0 {
            message.append(", ");
        }
        message.append(describe_key(&fields[i].0).as_str());
        i = i + 1;
        proof {
            assert(message@ =~= head + listed_keys(views, i as int));
        }
    }
    let ghost so_far = message@;
    if fields.len() > LISTED_KEYS {
        message.append(" and ");
        push_decimal(&mut message, (fields.len() - LISTED_KEYS) as u64);
        message.append(" more");
        proof {
            assert(message@ =~= so_far + (" and "@ + decimal((fields@.len() - LISTED_KEYS) as nat) + " more"@));
        }
    } else {
        proof {
            reveal_strlit("");
            assert(message@ =~= so_far + ""@);
        }
    }
    Err(InitError::new(message))
}

impl InitRequest {
    /// Decode an `Init` payload: a map with exactly the keys `config` and `registrations`. A key that
    /// is absent or nil is missing, and both missing keys are reported together.
    pub fn from_value(payload: &Wire) -> (r: Result<Self, InitError>)
        requires
            nesting(payload@) <= 1024,
        ensures
            match (r, decoded_init(payload@)) {
                (Ok(request), Ok(wanted)) => request@ == wanted,
                (Err(error), Err(message)) => error@ == message,
                _ => false,
            },
    {
        broadcast use lemma_wire_items;

        let nothing: Vec<(Wire, Wire)> = Vec::new();
        let fields = match payload {
            Wire::Nil => &nothing,
            Wire::Pairs(fields) => fields,
            _ => {
                return Err(
                    InitError::new(
                        "the `Init` payload must be a map with `config` and `registrations`".to_owned(),
                    ),
                );
            },
        };
        let ghost views = pairs_view(fields@);
        proof {
            assert(payload@ is Nil ==> views =~= Seq::empty());
            assert(payload_fields(payload@) == Some(views));
            assert forall|i: int| 0 <= i < views.len() implies nesting((#[trigger] views[i]).0) <= 1024 && nesting(
                views[i].1,
            ) <= 1024 by {
                lemma_pairs_nesting(views, views.len() as int, i);
            }
        }
        let (config, registrations) = match read_two(fields, "config", "registrations") {
            Pair::Unknown(i) => {
                proof {
                    assert(views[i as int].0 == fields@[i as int].0@);
                }
                let mut message = "the `Init` payload has an unknown key ".to_owned();
                message.append(describe_key(&fields[i].0).as_str());
                return Err(InitError::new(message));
            },
            Pair::Repeated(i) => {
                proof {
                    assert(views[i as int].0 == fields@[i as int].0@);
                }
                let mut message = "the `Init` payload repeats the key ".to_owned();
                message.append(describe_key(&fields[i].0).as_str());
                return Err(InitError::new(message));
            },
            Pair::Fields(config, registrations) => (config, registrations),
        };
        match (present(config), present(registrations)) {
            (Some(config), Some(registrations)) => {
                proof {
                    let i = choose|i: int| 0 <= i < fields@.len() && (#[trigger] fields@[i]).1 == *config;
                    assert(views[i].1 == config@);
                    let j = choose|j: int| 0 <= j < fields@.len() && (#[trigger] fields@[j]).1 == *registrations;
                    assert(views[j].1 == registrations@);
                }
                let config = decode_config(config)?;
                let registrations = decode_registrations(registrations)?;
                Ok(InitRequest { config, registrations })
            },
            (None, Some(_)) => Err(InitError::new("the `Init` payload is missing `config`".to_owned())),
            (Some(_), None) => Err(InitError::new("the `Init` payload is missing `registrations`".to_owned())),
            (None, None) => Err(
                InitError::new("the `Init` payload is missing `config` and `registrations`".to_owned()),
            ),
        }
    }

    /// The Registered Functions, in the order in which the Backend listed them.
    pub fn registrations(&self) -> (r: &Vec<RegisteredFunction>)
        ensures
            registration_views(r@) == self@,
    {
        &self.registrations
    }

    /// The Config and the Registered Functions.
    pub(crate) fn into_parts(self) -> (r: (Config, Vec<RegisteredFunction>))
        ensures
            registration_views(r.1@) == self@,
    {
        (self.config, self.registrations)
    }
}

/// The names of accepted registrations are there once each, and none is empty.
pub proof fn law_registrations_distinct(entries: Seq<WireView>, n: int)
    requires
        0 <= n <= entries.len(),
        decoded_entries(entries, n) is Ok,
    ensures
        crate::table::distinct(decoded_entries(entries, n)->Ok_0),
        decoded_entries(entries, n)->Ok_0.len() == n,
        forall|i: int| 0 <= i < n ==> (#[trigger] decoded_entries(entries, n)->Ok_0[i]).0.len() > 0,
    decreases n,
{
    if n > 0 {
        law_registrations_distinct(entries, n - 1);
        let before = decoded_entries(entries, n - 1)->Ok_0;
        let all = decoded_entries(entries, n)->Ok_0;
        assert forall|i: int| 0 <= i < n implies (#[trigger] all[i]).0.len() > 0 by {
            if i < n - 1 {
                assert(all[i] == before[i]);
            }
        }
        assert forall|i: int, j: int| 0 <= i < n && 0 <= j < n && i != j implies (#[trigger] all[i]).0 != (
        #[trigger] all[j]).0 by {
            if i < n - 1 && j < n - 1 {
                assert(before[i].0 != before[j].0);
            } else if i < n - 1 {
                assert(before[i].0 == all[i].0);
            } else {
                assert(before[j].0 == all[j].0);
            }
        }
    }
}

} // verus!
