//! The dimensions of a Resource Budget, and the limits that a Backend may set.

use vstd::prelude::*;
use crate::text::decimal;
use crate::text::push_decimal;

verus! {

/// One dimension of a Resource Budget. Each is enforced on its own.
#[derive(Debug, Clone, Copy, PartialEq, Eq, Hash, Structural)]
#[non_exhaustive]
pub enum Dimension {
    /// Time spent running Script code, without any wait on the Backend.
    CpuTime,
    /// Memory that the execution's values hold at once.
    Memory,
    /// Strings, arrays and objects constructed, and resizes of a growing collection.
    Allocations,
    /// Dispatches of a Registered Function or Method, whether or not they succeed.
    RpcCalls,
    /// The serialized length of the result in bytes.
    OutputSize,
    /// Host dispatches and committed writes of Global Variables.
    SideEffects,
}

impl Dimension {
    /// Every dimension.
    pub fn all() -> (r: Vec<Dimension>)
        ensures
            r@ == seq![
                Dimension::CpuTime,
                Dimension::Memory,
                Dimension::Allocations,
                Dimension::RpcCalls,
                Dimension::OutputSize,
                Dimension::SideEffects,
            ],
    {
        let r = vec![
            Dimension::CpuTime,
            Dimension::Memory,
            Dimension::Allocations,
            Dimension::RpcCalls,
            Dimension::OutputSize,
            Dimension::SideEffects,
        ];
        r
    }

    /// The dimension's stable spelling.
    pub open spec fn spelling(self) -> Seq<char> {
        match self {
            Dimension::CpuTime => "cpu_time"@,
            Dimension::Memory => "memory"@,
            Dimension::Allocations => "allocations"@,
            Dimension::RpcCalls => "rpc_calls"@,
            Dimension::OutputSize => "output_size"@,
            Dimension::SideEffects => "side_effects"@,
        }
    }

    /// The dimension's stable spelling.
    pub fn as_str(self) -> (r: &'static str)
        ensures
            r@ == self.spelling(),
    {
        match self {
            Dimension::CpuTime => "cpu_time",
            Dimension::Memory => "memory",
            Dimension::Allocations => "allocations",
            Dimension::RpcCalls => "rpc_calls",
            Dimension::OutputSize => "output_size",
            Dimension::SideEffects => "side_effects",
        }
    }
}

/// One limit that a Backend may set in its Config and override per execution.
#[derive(Debug, Clone, Copy, PartialEq, Eq, Hash, Structural)]
#[non_exhaustive]
pub enum Setting {
    /// [`Dimension::CpuTime`], in milliseconds.
    CpuTimeMs,
    /// [`Dimension::Memory`], in bytes.
    MemoryBytes,
    /// [`Dimension::Allocations`].
    Allocations,
    /// [`Dimension::RpcCalls`].
    RpcCalls,
    /// [`Dimension::OutputSize`], in bytes.
    OutputSizeBytes,
    /// [`Dimension::SideEffects`].
    SideEffects,
    /// How many arrays or objects deep a host call's argument may nest.
    ArgumentDepth,
    /// How long the Backend's per-call handler has to answer, in milliseconds.
    AuthorizationTimeoutMs,
}

/// Every setting, in the order of the wire shape.
pub open spec fn settings_in_order() -> Seq<Setting> {
    seq![
        Setting::CpuTimeMs,
        Setting::MemoryBytes,
        Setting::Allocations,
        Setting::RpcCalls,
        Setting::OutputSizeBytes,
        Setting::SideEffects,
        Setting::ArgumentDepth,
        Setting::AuthorizationTimeoutMs,
    ]
}

impl Setting {
    /// Every setting, in the order of the wire shape.
    pub fn all() -> (r: Vec<Setting>)
        ensures
            r@ == settings_in_order(),
    {
        let r = vec![
            Setting::CpuTimeMs,
            Setting::MemoryBytes,
            Setting::Allocations,
            Setting::RpcCalls,
            Setting::OutputSizeBytes,
            Setting::SideEffects,
            Setting::ArgumentDepth,
            Setting::AuthorizationTimeoutMs,
        ];
        r
    }

    /// Where the setting sits in a Config or override map.
    pub open spec fn spelling(self) -> Seq<char> {
        match self {
            Setting::CpuTimeMs => "budget.cpu_time_ms"@,
            Setting::MemoryBytes => "budget.memory_bytes"@,
            Setting::Allocations => "budget.allocations"@,
            Setting::RpcCalls => "budget.rpc_calls"@,
            Setting::OutputSizeBytes => "budget.output_size_bytes"@,
            Setting::SideEffects => "budget.side_effects"@,
            Setting::ArgumentDepth => "argument_depth"@,
            Setting::AuthorizationTimeoutMs => "authorization_timeout_ms"@,
        }
    }

    /// Where the setting sits in a Config or override map, dotted.
    pub fn path(self) -> (r: &'static str)
        ensures
            r@ == self.spelling(),
    {
        match self {
            Setting::CpuTimeMs => "budget.cpu_time_ms",
            Setting::MemoryBytes => "budget.memory_bytes",
            Setting::Allocations => "budget.allocations",
            Setting::RpcCalls => "budget.rpc_calls",
            Setting::OutputSizeBytes => "budget.output_size_bytes",
            Setting::SideEffects => "budget.side_effects",
            Setting::ArgumentDepth => "argument_depth",
            Setting::AuthorizationTimeoutMs => "authorization_timeout_ms",
        }
    }

    /// The smallest value allowed.
    pub open spec fn lowest(self) -> u64 {
        match self {
            Setting::CpuTimeMs => 1,
            Setting::MemoryBytes => 1024,
            Setting::Allocations => 0,
            Setting::RpcCalls => 0,
            Setting::OutputSizeBytes => 1,
            Setting::SideEffects => 0,
            Setting::ArgumentDepth => 1,
            Setting::AuthorizationTimeoutMs => 1,
        }
    }

    /// The largest value allowed.
    pub open spec fn highest(self) -> u64 {
        match self {
            Setting::CpuTimeMs => 60_000,
            Setting::MemoryBytes => 0x4000_0000,
            Setting::Allocations => 100_000_000,
            Setting::RpcCalls => 100_000,
            Setting::OutputSizeBytes => 0x100_0000,
            Setting::SideEffects => 100_000,
            Setting::ArgumentDepth => 64,
            Setting::AuthorizationTimeoutMs => 60_000,
        }
    }

    /// The value in force when nothing sets it.
    pub open spec fn usual(self) -> u64 {
        match self {
            Setting::CpuTimeMs => 1_000,
            Setting::MemoryBytes => 0x400_0000,
            Setting::Allocations => 1_000_000,
            Setting::RpcCalls => 100,
            Setting::OutputSizeBytes => 0x10_0000,
            Setting::SideEffects => 100,
            Setting::ArgumentDepth => 12,
            Setting::AuthorizationTimeoutMs => 5_000,
        }
    }

    /// Whether `value` is within the setting's range.
    pub open spec fn allows(self, value: u64) -> bool {
        self.lowest() <= value <= self.highest()
    }

    /// The smallest value allowed. Zero is allowed only where it means none at all.
    pub fn min(self) -> (r: u64)
        ensures
            r == self.lowest(),
    {
        match self {
            Setting::CpuTimeMs
            | Setting::OutputSizeBytes
            | Setting::ArgumentDepth
            | Setting::AuthorizationTimeoutMs => 1,
            Setting::MemoryBytes => 1024,
            Setting::Allocations | Setting::RpcCalls | Setting::SideEffects => 0,
        }
    }

    /// The largest value allowed, which nothing can raise.
    pub fn max(self) -> (r: u64)
        ensures
            r == self.highest(),
    {
        match self {
            Setting::CpuTimeMs | Setting::AuthorizationTimeoutMs => 60_000,
            Setting::MemoryBytes => 1024 * 1024 * 1024,
            Setting::Allocations => 100_000_000,
            Setting::RpcCalls | Setting::SideEffects => 100_000,
            Setting::OutputSizeBytes => 16 * 1024 * 1024,
            Setting::ArgumentDepth => 64,
        }
    }

    /// The value in force when nothing sets it.
    pub fn default(self) -> (r: u64)
        ensures
            r == self.usual(),
            self.allows(r),
    {
        match self {
            Setting::CpuTimeMs => 1_000,
            Setting::MemoryBytes => 64 * 1024 * 1024,
            Setting::Allocations => 1_000_000,
            Setting::RpcCalls | Setting::SideEffects => 100,
            Setting::OutputSizeBytes => 1024 * 1024,
            Setting::ArgumentDepth => 12,
            Setting::AuthorizationTimeoutMs => 5_000,
        }
    }

    spec fn place(self) -> int {
        match self {
            Setting::CpuTimeMs => 0,
            Setting::MemoryBytes => 1,
            Setting::Allocations => 2,
            Setting::RpcCalls => 3,
            Setting::OutputSizeBytes => 4,
            Setting::SideEffects => 5,
            Setting::ArgumentDepth => 6,
            Setting::AuthorizationTimeoutMs => 7,
        }
    }

    fn index(self) -> (r: usize)
        ensures
            r == self.place(),
            r < 8,
    {
        match self {
            Setting::CpuTimeMs => 0,
            Setting::MemoryBytes => 1,
            Setting::Allocations => 2,
            Setting::RpcCalls => 3,
            Setting::OutputSizeBytes => 4,
            Setting::SideEffects => 5,
            Setting::ArgumentDepth => 6,
            Setting::AuthorizationTimeoutMs => 7,
        }
    }
}

/// Values for some of the [`Setting`]s. Every value held is within its setting's range.
#[derive(Debug, Clone, Copy)]
pub struct Settings {
    values: [Option<u64>; 8],
}

/// A value outside its setting's range.
#[derive(Debug, Clone, Copy, PartialEq, Eq, Structural)]
pub struct OutOfRange {
    setting: Setting,
    found: u64,
}

impl OutOfRange {
    pub closed spec fn refused(self) -> (Setting, u64) {
        (self.setting, self.found)
    }

    /// The setting refused.
    pub fn setting(&self) -> (r: Setting)
        ensures
            r == self.refused().0,
    {
        self.setting
    }

    /// The value refused.
    pub fn found(&self) -> (r: u64)
        ensures
            r == self.refused().1,
    {
        self.found
    }

    /// The refusal as text.
    pub open spec fn spelling(self) -> Seq<char> {
        "`"@ + self.refused().0.spelling() + "` must be an integer from "@ + decimal(self.refused().0.lowest() as nat)
            + " to "@ + decimal(self.refused().0.highest() as nat) + "; found "@ + decimal(self.refused().1 as nat)
    }

    /// The refusal as text: the setting's path, its range and the value.
    pub fn to_text(&self) -> (r: String)
        ensures
            r@ == self.spelling(),
    {
        let mut text = "`".to_owned();
        text.append(self.setting.path());
        text.append("` must be an integer from ");
        push_decimal(&mut text, self.setting.min());
        text.append(" to ");
        push_decimal(&mut text, self.setting.max());
        text.append("; found ");
        push_decimal(&mut text, self.found);
        text
    }
}

impl Settings {
    #[verifier::type_invariant]
    spec fn inv(self) -> bool {
        forall|setting: Setting| #[trigger] self.value(setting) matches Some(value) ==> setting.allows(value)
    }

    /// The value set for `setting`, if any.
    pub closed spec fn value(self, setting: Setting) -> Option<u64> {
        self.values@[setting.place()]
    }

    /// The value in force for `setting`.
    pub open spec fn in_force(self, setting: Setting) -> u64 {
        match self.value(setting) {
            Some(value) => value,
            None => setting.usual(),
        }
    }

    /// No setting set.
    pub fn new() -> (r: Self)
        ensures
            forall|setting: Setting| r.value(setting) is None,
    {
        Settings { values: [None, None, None, None, None, None, None, None] }
    }

    /// Set `setting` to `value`, unless the value lies outside the setting's range.
    pub fn set(&mut self, setting: Setting, value: u64) -> (r: Result<(), OutOfRange>)
        ensures
            setting.allows(value) ==> r is Ok && final(self).value(setting) == Some(value) && forall|other: Setting|
                other != setting ==> final(self).value(other) == old(self).value(other),
            !setting.allows(value) ==> *final(self) == *old(self) && (r matches Err(e) && e.refused() == (setting, value)),
    {
        if value < setting.min() || value > setting.max() {
            return Err(OutOfRange { setting, found: value });
        }
        proof {
            use_type_invariant(&*self);
        }
        let mut values = self.values;
        let place = setting.index();
        values[place] = Some(value);
        let ghost after = Settings { values };
        proof {
            assert forall|other: Setting| #[trigger] after.value(other) is Some implies other.allows(after.value(other)->0) by {
                if other != setting {
                    assert(other.place() != setting.place());
                    assert(after.value(other) == self.value(other));
                }
            }
        }
        *self = Settings { values };
        proof {
            assert forall|other: Setting| other != setting implies self.value(other) == old(self).value(other) by {
                assert(other.place() != setting.place());
            }
        }
        Ok(())
    }

    /// The value set for `setting`, if any. It is within the setting's range.
    pub fn get(&self, setting: Setting) -> (r: Option<u64>)
        ensures
            r == self.value(setting),
            r matches Some(value) ==> setting.allows(value),
    {
        proof {
            use_type_invariant(self);
        }
        self.values[setting.index()]
    }

    /// The value in force for `setting`: the one set, or else its default.
    pub fn effective(&self, setting: Setting) -> (r: u64)
        ensures
            r == self.in_force(setting),
            setting.allows(r),
    {
        match self.get(setting) {
            Some(value) => value,
            None => setting.default(),
        }
    }

    /// These settings with `over` laid on top: what `over` sets takes its value, everything else
    /// keeps this one's.
    pub fn overlay(&self, over: &Self) -> (r: Self)
        ensures
            forall|setting: Setting|
                #[trigger] r.value(setting) == if over.value(setting) is Some {
                    over.value(setting)
                } else {
                    self.value(setting)
                },
    {
        proof {
            use_type_invariant(self);
            use_type_invariant(over);
        }
        let mut values = self.values;
        let mut i: usize = 0;
        while i < 8
            invariant
                i <= 8,
                forall|j: int|
                    0 <= j < 8 ==> #[trigger] values@[j] == if j < i && over.values@[j] is Some {
                        over.values@[j]
                    } else {
                        self.values@[j]
                    },
            decreases 8 - i,
        {
            if over.values[i].is_some() {
                values[i] = over.values[i];
            }
            i = i + 1;
        }
        let ghost after = Settings { values };
        proof {
            assert forall|setting: Setting| #[trigger] after.value(setting) == if over.value(setting) is Some {
                over.value(setting)
            } else {
                self.value(setting)
            } by {
                assert(values@[setting.place()] == after.value(setting));
            }
            assert forall|setting: Setting| #[trigger] after.value(setting) is Some implies setting.allows(after.value(setting)->0) by {
                assert(over.value(setting) == over.value(setting));
                assert(self.value(setting) == self.value(setting));
            }
        }
        Settings { values }
    }
}

impl Default for Settings {
    fn default() -> (r: Self)
        ensures
            forall|setting: Setting| r.value(setting) is None,
    {
        Settings::new()
    }
}

/// Each setting with its place, its range and the value that is in force when nothing sets it.
pub proof fn law_settings(setting: Setting)
    ensures
        (setting.spelling(), setting.lowest() as int, setting.highest() as int, setting.usual() as int) == (match setting {
            Setting::CpuTimeMs => ("budget.cpu_time_ms"@, 1int, 60_000int, 1_000int),
            Setting::MemoryBytes => ("budget.memory_bytes"@, 1_024, 1_073_741_824, 67_108_864),
            Setting::Allocations => ("budget.allocations"@, 0, 100_000_000, 1_000_000),
            Setting::RpcCalls => ("budget.rpc_calls"@, 0, 100_000, 100),
            Setting::OutputSizeBytes => ("budget.output_size_bytes"@, 1, 16_777_216, 1_048_576),
            Setting::SideEffects => ("budget.side_effects"@, 0, 100_000, 100),
            Setting::ArgumentDepth => ("argument_depth"@, 1, 64, 12),
            Setting::AuthorizationTimeoutMs => ("authorization_timeout_ms"@, 1, 60_000, 5_000),
        }),
        forall|value: u64| #[trigger] setting.allows(value) <==> setting.lowest() <= value <= setting.highest(),
{
}

/// What is in force for a setting is what was set for it, and else its usual value.
pub proof fn law_in_force(settings: Settings, setting: Setting)
    ensures
        settings.value(setting) matches Some(value) ==> settings.in_force(setting) == value,
        settings.value(setting) is None ==> settings.in_force(setting) == setting.usual(),
{
}

} // verus!
