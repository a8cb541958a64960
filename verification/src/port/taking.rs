//! What a map of settings sets.

use vstd::prelude::*;
use crate::budget::Setting;
use crate::budget::settings_in_order;
use crate::port::settings::decoded_fields;
use crate::port::settings::decoded_map;
use crate::port::settings::has_dot;
use crate::port::settings::is_group;
use crate::port::settings::joined;
use crate::port::settings::lies_under;
use crate::port::settings::seen_before;
use crate::port::settings::setting_at;
use crate::wire::WireView;
use crate::wire::lemma_pair_smaller;

verus! {

proof fn lemma_setting_at(path: Seq<char>, k: int)
    requires
        0 <= k,
    ensures
        setting_at(path, k) matches Some(s) ==> s.spelling() == path,
        setting_at(path, k) is None ==> forall|j: int| k <= j < 8 ==> (#[trigger] settings_in_order()[j]).spelling() != path,
    decreases 8 - k,
{
    if k < 8 {
        lemma_setting_at(path, k + 1);
    }
}

/// Every setting is found by its path, and by no other.
pub proof fn law_settings_by_path(setting: Setting, path: Seq<char>)
    ensures
        setting_at(path, 0) == Some(setting) <==> path == setting.spelling(),
{
    lemma_setting_at(path, 0);
    let place = match setting {
        Setting::CpuTimeMs => 0int,
        Setting::MemoryBytes => 1,
        Setting::Allocations => 2,
        Setting::RpcCalls => 3,
        Setting::OutputSizeBytes => 4,
        Setting::SideEffects => 5,
        Setting::ArgumentDepth => 6,
        Setting::AuthorizationTimeoutMs => 7,
    };
    assert(settings_in_order()[place] == setting);
    if path == setting.spelling() {
        if let Some(other) = setting_at(path, 0) {
            lemma_paths_differ(setting, other);
        }
    }
}

proof fn lemma_paths_differ(a: Setting, b: Setting)
    requires
        a.spelling() == b.spelling(),
    ensures
        a == b,
{
    reveal_strlit("budget.cpu_time_ms");
    reveal_strlit("budget.memory_bytes");
    reveal_strlit("budget.allocations");
    reveal_strlit("budget.rpc_calls");
    reveal_strlit("budget.output_size_bytes");
    reveal_strlit("budget.side_effects");
    reveal_strlit("argument_depth");
    reveal_strlit("authorization_timeout_ms");
    assert("budget.cpu_time_ms"@[7] == 'c');
    assert("budget.memory_bytes"@[7] == 'm');
    assert("budget.allocations"@[7] == 'a');
    assert("budget.rpc_calls"@[7] == 'r');
    assert("budget.output_size_bytes"@[7] == 'o');
    assert("budget.side_effects"@[7] == 's');
    assert("argument_depth"@[0] == 'a' && "argument_depth"@[1] == 'r');
    assert("authorization_timeout_ms"@[0] == 'a' && "authorization_timeout_ms"@[1] == 'u');
    assert("budget.cpu_time_ms"@[0] == 'b');
    assert("budget.memory_bytes"@[0] == 'b');
    assert("budget.allocations"@[0] == 'b');
    assert("budget.rpc_calls"@[0] == 'b');
    assert("budget.output_size_bytes"@[0] == 'b');
    assert("budget.side_effects"@[0] == 'b');
}

/// Whether a path is one of a map: at the top any path, and else one under the map's own.
spec fn inside(path: Seq<char>, relative: Seq<char>) -> bool {
    relative.len() == 0 || lies_under(path, relative)
}

proof fn lemma_joined_inside(relative: Seq<char>, key: Seq<char>, path: Seq<char>)
    requires
        path == joined(relative, key) || lies_under(path, joined(relative, key)),
    ensures
        inside(path, relative),
{
    reveal_strlit(".");
    if relative.len() > 0 {
        let n = relative.len() as int;
        let whole = joined(relative, key);
        assert(whole.take(n) =~= relative);
        assert(whole[n] == '.');
        if path != whole {
            assert(path.take(whole.len() as int).take(n) =~= path.take(n));
            assert(path.take(whole.len() as int)[n] == path[n]);
        }
        assert(path.take(n) =~= relative);
    }
}

/// A map of settings changes only settings under its own path.
proof fn lemma_changes(value: WireView, prefix: Seq<char>, relative: Seq<char>, n: int, before: Map<Setting, u64>, s: Setting)
    requires
        decoded_fields(value, prefix, relative, n, before) is Values,
        !inside(s.spelling(), relative),
    ensures
        decoded_fields(value, prefix, relative, n, before)->Values_0.dom().contains(s) == before.dom().contains(s),
        decoded_fields(value, prefix, relative, n, before)->Values_0[s] == before[s],
    decreases value, n,
{
    if value is Pairs && 0 < n <= value->Pairs_0.len() {
        let fields = value->Pairs_0;
        lemma_changes(value, prefix, relative, n - 1, before, s);
        let so_far = decoded_fields(value, prefix, relative, n - 1, before)->Values_0;
        if let WireView::String(key) = fields[n - 1].0 {
            let path = joined(relative, key);
            lemma_setting_at(path, 0);
            if s.spelling() == path {
                lemma_joined_inside(relative, key, s.spelling());
            }
            if setting_at(path, 0) is None {
                lemma_pair_smaller(value, n - 1);
                if inside(s.spelling(), path) {
                    if path.len() == 0 {
                        lemma_no_empty_group();
                    } else {
                        lemma_joined_inside(relative, key, s.spelling());
                    }
                }
                let inner = fields[n - 1].1;
                let count = if inner is Pairs { inner->Pairs_0.len() as int } else { 0 };
                assert(decoded_map(inner, prefix, path, so_far) == decoded_fields(inner, prefix, path, count, so_far));
                lemma_changes(inner, prefix, path, if inner is Pairs { inner->Pairs_0.len() as int } else { 0 }, so_far, s);
            }
        }
    }
}

/// No path starts with a dot, so that nothing lies under the empty path.
proof fn lemma_no_empty_group()
    ensures
        !is_group(Seq::<char>::empty()),
        forall|path: Seq<char>| path.len() == 0 ==> !#[trigger] is_group(path),
{
    reveal_strlit("budget.cpu_time_ms");
    reveal_strlit("budget.memory_bytes");
    reveal_strlit("budget.allocations");
    reveal_strlit("budget.rpc_calls");
    reveal_strlit("budget.output_size_bytes");
    reveal_strlit("budget.side_effects");
    reveal_strlit("argument_depth");
    reveal_strlit("authorization_timeout_ms");
    assert forall|path: Seq<char>| path.len() == 0 implies !#[trigger] is_group(path) by {
        assert forall|k: int| 0 <= k < 8 implies !lies_under((#[trigger] settings_in_order()[k]).spelling(), path) by {
            let s = settings_in_order()[k];
            assert(s.spelling()[0] == 'b' || s.spelling()[0] == 'a');
        }
    }
}

/// A map of settings that is accepted has texts without a dot for its keys, none twice; under the path of a setting it
/// has an integer from the setting's lowest to its highest, and that is what it sets the setting to.
pub proof fn law_settings_are_taken(
    value: WireView,
    prefix: Seq<char>,
    relative: Seq<char>,
    n: int,
    before: Map<Setting, u64>,
    i: int,
)
    requires
        value is Pairs,
        0 <= i < n <= value->Pairs_0.len(),
        decoded_fields(value, prefix, relative, n, before) is Values,
    ensures
        value->Pairs_0[i].0 matches WireView::String(key) && !has_dot(key) && (forall|j: int|
            0 <= j < i ==> (#[trigger] value->Pairs_0[j]).0 != WireView::String(key)) && (setting_at(joined(relative, key), 0)
            matches Some(s) ==> decoded_fields(value, prefix, relative, n, before)->Values_0.dom().contains(s)
            && value->Pairs_0[i].1 == WireView::Integer(
            decoded_fields(value, prefix, relative, n, before)->Values_0[s] as int,
        ) && s.lowest() <= decoded_fields(value, prefix, relative, n, before)->Values_0[s] <= s.highest()),
    decreases n,
{
    let fields = value->Pairs_0;
    let last = fields[n - 1].0;
    if let WireView::String(key) = last {
        if i == n - 1 {
            if exists|j: int| 0 <= j < i && (#[trigger] fields[j]).0 == WireView::String(key) {
                assert(seen_before(fields, key, i));
            }
        } else {
            law_settings_are_taken(value, prefix, relative, n - 1, before, i);
            let so_far = decoded_fields(value, prefix, relative, n - 1, before)->Values_0;
            if let WireView::String(mine) = fields[i].0 {
                if mine == key {
                    assert(seen_before(fields, key, n - 1));
                }
                let path = joined(relative, key);
                if let Some(s) = setting_at(joined(relative, mine), 0) {
                    lemma_setting_at(joined(relative, mine), 0);
                    lemma_setting_at(path, 0);
                    lemma_other_key(relative, mine, key);
                    if setting_at(path, 0) is None {
                        lemma_pair_smaller(value, n - 1);
                        let inner = fields[n - 1].1;
                        if path.len() == 0 {
                            lemma_no_empty_group();
                        }
                        let count = if inner is Pairs { inner->Pairs_0.len() as int } else { 0 };
                        assert(decoded_map(inner, prefix, path, so_far) == decoded_fields(inner, prefix, path, count, so_far));
                        lemma_changes(
                            inner,
                            prefix,
                            path,
                            if inner is Pairs { inner->Pairs_0.len() as int } else { 0 },
                            so_far,
                            s,
                        );
                    }
                }
            }
        }
    }
}

/// Two keys of a map lead to two paths, neither under the other.
proof fn lemma_other_key(relative: Seq<char>, a: Seq<char>, b: Seq<char>)
    requires
        a != b,
        !has_dot(a),
    ensures
        joined(relative, a) != joined(relative, b),
        !lies_under(joined(relative, a), joined(relative, b)),
{
    reveal_strlit(".");
    let n: int = if relative.len() == 0 { 0 } else { relative.len() as int + 1 };
    let x = joined(relative, a);
    let y = joined(relative, b);
    assert(x.skip(n) =~= a);
    assert(y.skip(n) =~= b);
    if lies_under(x, y) {
        assert(a[y.len() - n] == x[y.len() as int]);
    }
}

} // verus!
