//! Decoding the tunable execution limits: one decoder for a Session's Config and an execution's
//! overrides, so that the two never disagree on a key, a type or a range.
//!
//! The shape is the settings' dotted paths as nested maps. Every key is optional. A refusal names the
//! full path, and for a value its range.

use vstd::prelude::*;
use crate::budget::Setting;
use crate::budget::Settings;
use crate::budget::settings_in_order;
use crate::text::bounded_to;
use crate::text::bounded_to_spec;
use crate::text::chars_of;
use crate::text::decimal;
use crate::text::decimal_text;
use crate::text::push_decimal;
use crate::text::same;
use crate::text::signed_decimal;
use crate::text::signed_decimal_text;
use crate::wire::Wire;
use crate::wire::WireView;
use crate::wire::lemma_pair_smaller;
use crate::wire::lemma_wire_items;
use crate::wire::pairs_view;

verus! {

/// The most characters of a Backend's key that a refusal echoes.
pub const ECHO_LIMIT: usize = 64;

/// What a settings map comes to: the values it sets, or why it is refused.
#[verifier::ext_equal]
pub ghost enum Decoding {
    Values(Map<Setting, u64>),
    Refused(Seq<char>),
}

/// A dotted path under its prefix.
pub open spec fn under(prefix: Seq<char>, relative: Seq<char>) -> Seq<char> {
    if relative.len() == 0 {
        prefix
    } else {
        prefix + "."@ + relative
    }
}

/// The path of a key in the map at `relative`.
pub open spec fn joined(relative: Seq<char>, key: Seq<char>) -> Seq<char> {
    if relative.len() == 0 {
        key
    } else {
        relative + "."@ + key
    }
}

/// The first setting from the `k`-th on with this path.
pub open spec fn setting_at(path: Seq<char>, k: int) -> Option<Setting>
    decreases 8 - k,
{
    if k < 0 || k >= 8 {
        None
    } else if settings_in_order()[k].spelling() == path {
        Some(settings_in_order()[k])
    } else {
        setting_at(path, k + 1)
    }
}

/// Whether a path lies under `group`.
pub open spec fn lies_under(path: Seq<char>, group: Seq<char>) -> bool {
    path.len() > group.len() && path.take(group.len() as int) == group && path[group.len() as int] == '.'
}

/// Whether some setting lies under `path`.
pub open spec fn is_group(path: Seq<char>) -> bool {
    exists|k: int| 0 <= k < 8 && lies_under((#[trigger] settings_in_order()[k]).spelling(), path)
}

pub open spec fn has_dot(key: Seq<char>) -> bool {
    exists|i: int| 0 <= i < key.len() && #[trigger] key[i] == '.'
}

/// Whether one of the first `n` fields has this key.
pub open spec fn seen_before(fields: Seq<(WireView, WireView)>, key: Seq<char>, n: int) -> bool {
    exists|i: int| 0 <= i < n && (#[trigger] fields[i]).0 == WireView::String(key)
}

/// What a value that is no allowed integer is called.
pub open spec fn found_name(value: WireView) -> Seq<char> {
    match value {
        WireView::Nil => "nil"@,
        WireView::Boolean(_) => "a boolean"@,
        WireView::Integer(n) => signed_decimal(n),
        WireView::F32(_) => "a float"@,
        WireView::F64(_) => "a float"@,
        WireView::String(_) => "a string"@,
        WireView::Binary(_) => "binary data"@,
        WireView::Array(_) => "an array"@,
        WireView::Pairs(_) => "a map"@,
        WireView::Ext(..) => "an extension"@,
    }
}

/// One setting's value.
pub open spec fn decoded_value(value: WireView, setting: Setting, path: Seq<char>, before: Map<Setting, u64>) -> Decoding {
    if value is Integer && setting.lowest() <= value->Integer_0 <= setting.highest() {
        Decoding::Values(before.insert(setting, value->Integer_0 as u64))
    } else {
        Decoding::Refused(
            "`"@ + path + "` must be an integer from "@ + decimal(setting.lowest() as nat) + " to "@ + decimal(
                setting.highest() as nat,
            ) + "; found "@ + found_name(value),
        )
    }
}

/// The first `n` fields of the map at `relative`.
pub open spec fn decoded_fields(
    value: WireView,
    prefix: Seq<char>,
    relative: Seq<char>,
    n: int,
    before: Map<Setting, u64>,
) -> Decoding
    decreases value, n,
{
    if !(value is Pairs) {
        Decoding::Refused("`"@ + under(prefix, relative) + "` is not a map"@)
    } else {
        let fields = value->Pairs_0;
        if n <= 0 || n > fields.len() {
            Decoding::Values(before)
        } else {
            let i = n - 1;
            match decoded_fields(value, prefix, relative, i, before) {
                Decoding::Refused(message) => Decoding::Refused(message),
                Decoding::Values(so_far) => match fields[i].0 {
                    WireView::String(key) => {
                        let path = joined(relative, key);
                        let setting = setting_at(path, 0);
                        if has_dot(key) || (setting is None && !is_group(path)) {
                            Decoding::Refused(
                                "`"@ + under(prefix, bounded_to_spec(path, ECHO_LIMIT as int))
                                    + "` is not a known setting"@,
                            )
                        } else if seen_before(fields, key, i) {
                            Decoding::Refused(
                                "`"@ + under(prefix, relative) + "` repeats the key `"@ + key + "`"@,
                            )
                        } else {
                            match setting {
                                Some(setting) => decoded_value(fields[i].1, setting, under(prefix, path), so_far),
                                None => {
                                    proof {
                                        lemma_pair_smaller(value, i);
                                    }
                                    decoded_map(fields[i].1, prefix, path, so_far)
                                },
                            }
                        }
                    },
                    _ => Decoding::Refused("`"@ + under(prefix, relative) + "` has a key that is not a string"@),
                },
            }
        }
    }
}

/// The map at `relative`.
pub open spec fn decoded_map(value: WireView, prefix: Seq<char>, relative: Seq<char>, before: Map<Setting, u64>) -> Decoding
    decreases value, if value is Pairs { value->Pairs_0.len() + 1 } else { 1 },
{
    decoded_fields(
        value,
        prefix,
        relative,
        if value is Pairs {
            value->Pairs_0.len() as int
        } else {
            0
        },
        before,
    )
}

/// Whether settings hold exactly some values.
pub open spec fn holds_values(settings: Settings, values: Map<Setting, u64>) -> bool {
    forall|setting: Setting|
        #[trigger] settings.value(setting) == if values.dom().contains(setting) {
            Some(values[setting])
        } else {
            None
        }
}

fn path_under(prefix: &str, relative: &str) -> (r: String)
    ensures
        r@ == under(prefix@, relative@),
{
    let mut text = prefix.to_owned();
    if relative.unicode_len() != 0 {
        text.append(".");
        text.append(relative);
    }
    text
}

fn find_setting(path: &str) -> (r: Option<Setting>)
    ensures
        r == setting_at(path@, 0),
{
    let all = Setting::all();
    let mut k: usize = 0;
    while k < all.len()
        invariant
            k <= 8,
            all@ == settings_in_order(),
            all@.len() == 8,
            setting_at(path@, 0) == setting_at(path@, k as int),
        decreases 8 - k,
    {
        if same(all[k].path(), path) {
            return Some(all[k]);
        }
        k = k + 1;
    }
    None
}

fn path_lies_under(path: &Vec<char>, group: &Vec<char>) -> (r: bool)
    ensures
        r == lies_under(path@, group@),
{
    if path.len() <= group.len() {
        return false;
    }
    let mut i: usize = 0;
    while i < group.len()
        invariant
            i <= group@.len() < path@.len(),
            forall|j: int| 0 <= j < i ==> path@[j] == group@[j],
        decreases group.len() - i,
    {
        if path[i] != group[i] {
            proof {
                assert(path@.take(group@.len() as int)[i as int] != group@[i as int]);
            }
            return false;
        }
        i = i + 1;
    }
    proof {
        assert(path@.take(group@.len() as int) =~= group@);
    }
    path[group.len()] == '.'
}

fn names_group(path: &str) -> (r: bool)
    ensures
        r == is_group(path@),
{
    let all = Setting::all();
    let group = chars_of(path);
    let mut k: usize = 0;
    while k < all.len()
        invariant
            k <= 8,
            all@ == settings_in_order(),
            all@.len() == 8,
            group@ == path@,
            forall|j: int| 0 <= j < k ==> !lies_under((#[trigger] settings_in_order()[j]).spelling(), path@),
        decreases 8 - k,
    {
        if path_lies_under(&chars_of(all[k].path()), &group) {
            proof {
                assert(lies_under(settings_in_order()[k as int].spelling(), path@));
            }
            return true;
        }
        k = k + 1;
    }
    false
}

fn dotted(key: &str) -> (r: bool)
    ensures
        r == has_dot(key@),
{
    let chars = chars_of(key);
    let mut i: usize = 0;
    while i < chars.len()
        invariant
            i <= chars@.len(),
            chars@ == key@,
            forall|j: int| 0 <= j < i ==> #[trigger] chars@[j] != '.',
        decreases chars.len() - i,
    {
        if chars[i] == '.' {
            proof {
                assert(key@[i as int] == '.');
            }
            return true;
        }
        i = i + 1;
    }
    false
}

fn key_seen(fields: &Vec<(Wire, Wire)>, key: &str, n: usize) -> (r: bool)
    requires
        n <= fields@.len(),
    ensures
        r == seen_before(pairs_view(fields@), key@, n as int),
{
    let ghost views = pairs_view(fields@);
    let mut i: usize = 0;
    while i < n
        invariant
            i <= n <= fields@.len(),
            views == pairs_view(fields@),
            forall|j: int| 0 <= j < i ==> (#[trigger] views[j]).0 != WireView::String(key@),
        decreases n - i,
    {
        proof {
            assert(views[i as int].0 == fields@[i as int].0@);
        }
        if let Some(other) = fields[i].0.as_str() {
            if same(other, key) {
                return true;
            }
        }
        i = i + 1;
    }
    false
}

fn value_name(value: &Wire) -> (r: String)
    ensures
        r@ == found_name(value@),
{
    match value {
        Wire::Nil => "nil".to_owned(),
        Wire::Boolean(_) => "a boolean".to_owned(),
        Wire::Unsigned(n) => decimal_text(*n),
        Wire::Signed(n) => signed_decimal_text(*n),
        Wire::F32(_) => "a float".to_owned(),
        Wire::F64(_) => "a float".to_owned(),
        Wire::String(_) => "a string".to_owned(),
        Wire::Binary(_) => "binary data".to_owned(),
        Wire::Array(_) => "an array".to_owned(),
        Wire::Pairs(_) => "a map".to_owned(),
        Wire::Ext(..) => "an extension".to_owned(),
    }
}

/// Decode one setting's value, found at `path`.
fn decode_value(value: &Wire, setting: Setting, path: &str, settings: &mut Settings, before: Ghost<Map<Setting, u64>>) -> (r: Result<
    (),
    String,
>)
    requires
        holds_values(*old(settings), before@),
    ensures
        match decoded_value(value@, setting, path@, before@) {
            Decoding::Values(values) => r is Ok && holds_values(*final(settings), values),
            Decoding::Refused(message) => r matches Err(text) && text@ == message,
        },
{
    if let Some(n) = value.as_u64() {
        if let Ok(()) = settings.set(setting, n) {
            return Ok(());
        }
    }
    let mut message = "`".to_owned();
    message.append(path);
    message.append("` must be an integer from ");
    push_decimal(&mut message, setting.min());
    message.append(" to ");
    push_decimal(&mut message, setting.max());
    message.append("; found ");
    message.append(value_name(value).as_str());
    Err(message)
}

/// Nothing behind a refused field is read.
proof fn lemma_stays_refused(
    value: WireView,
    prefix: Seq<char>,
    relative: Seq<char>,
    k: int,
    n: int,
    before: Map<Setting, u64>,
)
    requires
        value is Pairs,
        0 <= k <= n <= value->Pairs_0.len(),
    ensures
        decoded_fields(value, prefix, relative, k, before) is Refused ==> decoded_fields(value, prefix, relative, n, before)
            == decoded_fields(value, prefix, relative, k, before),
    decreases n - k,
{
    if k < n {
        lemma_stays_refused(value, prefix, relative, k, n - 1, before);
    }
}

/// Decode the map at `relative`.
fn decode_map(value: &Wire, prefix: &str, relative: &str, settings: &mut Settings, before: Ghost<Map<Setting, u64>>) -> (r: Result<
    (),
    String,
>)
    requires
        holds_values(*old(settings), before@),
    ensures
        match decoded_map(value@, prefix@, relative@, before@) {
            Decoding::Values(values) => r is Ok && holds_values(*final(settings), values),
            Decoding::Refused(message) => r matches Err(text) && text@ == message,
        },
    decreases value@,
{
    broadcast use lemma_wire_items;

    let fields = match value {
        Wire::Pairs(fields) => fields,
        _ => {
            let mut message = "`".to_owned();
            message.append(path_under(prefix, relative).as_str());
            message.append("` is not a map");
            return Err(message);
        },
    };
    let ghost views = pairs_view(fields@);
    let ghost mut values = before@;
    let mut i: usize = 0;
    while i < fields.len()
        invariant
            i <= fields@.len(),
            value@ == WireView::Pairs(views),
            views == pairs_view(fields@),
            holds_values(*settings, values),
            decoded_fields(value@, prefix@, relative@, i as int, before@) == Decoding::Values(values),
        decreases fields.len() - i,
    {
        proof {
            assert(views[i as int].0 == fields@[i as int].0@);
            assert(views[i as int].1 == fields@[i as int].1@);
            lemma_pair_smaller(value@, i as int);
            lemma_stays_refused(value@, prefix@, relative@, i + 1, fields@.len() as int, before@);
        }
        let key = match fields[i].0.as_str() {
            Some(key) => key,
            None => {
                let mut message = "`".to_owned();
                message.append(path_under(prefix, relative).as_str());
                message.append("` has a key that is not a string");
                return Err(message);
            },
        };
        let mut path = relative.to_owned();
        if relative.unicode_len() != 0 {
            path.append(".");
        }
        path.append(key);
        proof {
            assert(path@ =~= joined(relative@, key@));
        }
        let setting = find_setting(path.as_str());
        if dotted(key) || (setting.is_none() && !names_group(path.as_str())) {
            let mut message = "`".to_owned();
            message.append(path_under(prefix, bounded_to(path.as_str(), ECHO_LIMIT).as_str()).as_str());
            message.append("` is not a known setting");
            return Err(message);
        }
        if key_seen(fields, key, i) {
            let mut message = "`".to_owned();
            message.append(path_under(prefix, relative).as_str());
            message.append("` repeats the key `");
            message.append(key);
            message.append("`");
            return Err(message);
        }
        let item = &fields[i].1;
        match setting {
            Some(setting) => {
                decode_value(item, setting, path_under(prefix, path.as_str()).as_str(), settings, Ghost(values))?;
            },
            None => {
                decode_map(item, prefix, path.as_str(), settings, Ghost(values))?;
            },
        }
        i = i + 1;
        proof {
            values = decoded_fields(value@, prefix@, relative@, i as int, before@)->Values_0;
        }
    }
    Ok(())
}

/// Decode a settings map found at `prefix` into the settings that it sets.
pub fn decode_settings(value: &Wire, prefix: &str) -> (r: Result<Settings, String>)
    ensures
        match decoded_map(value@, prefix@, Seq::empty(), Map::empty()) {
            Decoding::Values(values) => r matches Ok(settings) && holds_values(settings, values),
            Decoding::Refused(message) => r matches Err(text) && text@ == message,
        },
{
    let mut settings = Settings::new();
    proof {
        reveal_strlit("");
        assert(""@ =~= Seq::<char>::empty());
    }
    decode_map(value, prefix, "", &mut settings, Ghost(Map::empty()))?;
    Ok(settings)
}

} // verus!
