//! Per-chat memory scopes on the write path: which partition a thread's
//! memories go to, and what the consolidation prompts add for a scope.

use vstd::prelude::*;
use crate::memory_scopes::global_memory_partition;
use crate::memory_scopes::global_partition_spec;
use crate::memory_scopes::memory_scope_partition;
use crate::memory_scopes::scope_partition_spec;
use crate::text::chars_of;
use crate::text::concat_chars;
use crate::text::string_of;

verus! {

/// The field of a Phase 1 response that holds the visibility verdict.
pub const VISIBILITY_FIELD: &'static str = "memory_visibility";

pub const CLASSIFICATION_INSTRUCTIONS: &'static str = "\n\n## Memory visibility (required field `memory_visibility`)\n\nThis conversation belongs to one chat of a multi-chat assistant. Memories are\nstored either in a GLOBAL store shared with every other chat and person, or in\na PRIVATE store visible only inside this chat.\n\nSet `memory_visibility` to \"global\" ONLY if every statement in your output is\ngeneral, impersonal knowledge that is safe for anyone in any other chat to see\n(for example tool usage, workflows, public facts, general conventions).\n\nSet it to \"private\" if the output contains ANY information about a person or\nthis chat, including: names, nicknames, user or group identifiers, contact\ninformation, relationships, health, finances, locations, schedules, personal\npreferences or opinions of specific users, and anything internal to this group\nor conversation. When in doubt, choose \"private\".\n";

pub const GLOBAL_CONSOLIDATION_ADDENDUM: &'static str = "\n\n## Shared memory store\n\nThis memory folder is shared across all chats and all people. Keep only general,\nimpersonal knowledge. Remove or never write anything that identifies or\ndescribes a specific person, user, group, or chat (identifiers, contact info,\nrelationships, health, finances, locations, per-user preferences, group-internal\nmatters), even if it appears in the inputs.\n";

pub const SCOPE_CONSOLIDATION_ADDENDUM: &'static str = "\n\n## Private chat memory store\n\nThis memory folder is private to a single chat. It may contain information about\nthe people in that chat. Only consolidate the inputs provided here; do not\nreference or copy content from other memory folders.\n";

/// Memory scope registered for one thread.
#[derive(Debug, Clone, PartialEq, Eq)]
pub struct ThreadMemoryScope {
    /// Private scope of the thread, if any. The first registered key sticks.
    pub scope_key: Option<String>,
    /// Whether the thread may contribute to the global store. Once a thread
    /// was registered with `false` it stays `false`.
    pub may_write_global: bool,
}

pub open spec fn opt_str_view(o: Option<String>) -> Option<Seq<char>> {
    match o {
        Some(s) => Some(s@),
        None => None,
    }
}

/// The registered scope after registering `scope_key` and
/// `may_write_global` again: the first key sticks, and the permission is
/// AND-accumulated.
pub open spec fn upserted_spec(
    existing: Option<(Option<Seq<char>>, bool)>,
    scope_key: Option<Seq<char>>,
    may_write_global: bool,
) -> (Option<Seq<char>>, bool) {
    match existing {
        None => (scope_key, may_write_global),
        Some((key, may)) => (
            if key is Some {
                key
            } else {
                scope_key
            },
            may && may_write_global,
        ),
    }
}

pub open spec fn scope_view(s: ThreadMemoryScope) -> (Option<Seq<char>>, bool) {
    (opt_str_view(s.scope_key), s.may_write_global)
}

pub open spec fn opt_scope_view(s: Option<ThreadMemoryScope>) -> Option<(Option<Seq<char>>, bool)> {
    match s {
        Some(s) => Some(scope_view(s)),
        None => None,
    }
}

impl ThreadMemoryScope {
    /// The scope stored after registering `scope_key` and `may_write_global`
    /// for a thread whose registered scope is `existing`.
    pub fn upserted(existing: Option<ThreadMemoryScope>, scope_key: Option<String>, may_write_global: bool) -> (r: ThreadMemoryScope)
        ensures
            scope_view(r) == upserted_spec(opt_scope_view(existing), opt_str_view(scope_key), may_write_global),
    {
        match existing {
            None => ThreadMemoryScope { scope_key, may_write_global },
            Some(old) => {
                let key = match old.scope_key {
                    Some(k) => Some(k),
                    None => scope_key,
                };
                ThreadMemoryScope { scope_key: key, may_write_global: old.may_write_global && may_write_global }
            },
        }
    }
}

/// Once a thread was registered as unable to write the global store, no
/// later registration lets it; and once it has a key, it keeps that key.
pub proof fn lemma_upsert_is_sticky(
    existing: (Option<Seq<char>>, bool),
    scope_key: Option<Seq<char>>,
    may_write_global: bool,
)
    ensures
        !existing.1 ==> !upserted_spec(Some(existing), scope_key, may_write_global).1,
        existing.0 is Some ==> upserted_spec(Some(existing), scope_key, may_write_global).0 == existing.0,
{
}

/// Visibility verdict of a Phase 1 output.
#[derive(Debug, Clone, Copy, PartialEq, Eq, Structural)]
pub enum Visibility {
    Global,
    Private,
}

/// How Phase 1 routes the output of one claimed thread.
#[derive(Debug, Clone, PartialEq, Eq)]
pub enum ThreadRouting {
    /// No scope registered: the global partition, as without scopes.
    Upstream,
    /// Private-only thread without a scope: nothing may be stored.
    Drop,
    /// Scoped thread; `classify` asks the model for a visibility decision.
    Scoped { scope_key: String, classify: bool },
}

/// The routing as plain values: `None` for the global path, `Some(None)` to drop,
/// `Some(Some((key, classify)))` for a scope.
pub open spec fn routing_view(r: ThreadRouting) -> Option<Option<(Seq<char>, bool)>> {
    match r {
        ThreadRouting::Upstream => None,
        ThreadRouting::Drop => Some(None),
        ThreadRouting::Scoped { scope_key, classify } => Some(Some((scope_key@, classify))),
    }
}

pub open spec fn from_scope_spec(scope: Option<(Option<Seq<char>>, bool)>) -> Option<Option<(Seq<char>, bool)>> {
    match scope {
        None => None,
        Some((Some(key), may)) => Some(Some((key, may))),
        Some((None, false)) => Some(None),
        Some((None, true)) => None,
    }
}

/// The partition of an output: `None` for the global path of unscoped
/// threads.
pub open spec fn partition_spec(r: Option<Option<(Seq<char>, bool)>>, visibility: Option<Visibility>) -> Option<Seq<char>> {
    match r {
        Some(Some((key, classify))) => Some(
            if classify && visibility == Some(Visibility::Global) {
                global_partition_spec()
            } else {
                scope_partition_spec(key)
            },
        ),
        _ => None,
    }
}

impl ThreadRouting {
    pub fn from_scope(scope: Option<ThreadMemoryScope>) -> (r: ThreadRouting)
        ensures
            routing_view(r) == from_scope_spec(opt_scope_view(scope)),
    {
        match scope {
            None => ThreadRouting::Upstream,
            Some(s) => match s.scope_key {
                Some(scope_key) => ThreadRouting::Scoped { scope_key, classify: s.may_write_global },
                None => if s.may_write_global {
                    ThreadRouting::Upstream
                } else {
                    ThreadRouting::Drop
                },
            },
        }
    }

    /// Whether the model is asked for a visibility verdict.
    pub fn classify(&self) -> (r: bool)
        ensures
            r == (routing_view(*self) matches Some(Some((_, c))) && c),
    {
        match self {
            ThreadRouting::Scoped { classify, .. } => *classify,
            _ => false,
        }
    }

    /// Partition for the output, or `None` for the global path of unscoped
    /// threads.
    /// Only an explicit `global` verdict of a thread that may write globally
    /// reaches the global partition.
    pub fn partition(&self, visibility: Option<Visibility>) -> (r: Option<String>)
        ensures
            opt_str_view(r) == partition_spec(routing_view(*self), visibility),
    {
        match self {
            ThreadRouting::Scoped { scope_key, classify } => {
                let global = match visibility {
                    Some(Visibility::Global) => true,
                    _ => false,
                };
                if *classify && global {
                    Some(global_memory_partition())
                } else {
                    Some(memory_scope_partition(scope_key.as_str()))
                }
            },
            _ => None,
        }
    }
}

/// A thread that may not write the global store never reaches the global
/// partition, whatever the verdict; nor does a private verdict, or none.
pub proof fn lemma_global_partition_needs_permission_and_verdict(
    scope: (Option<Seq<char>>, bool),
    visibility: Option<Visibility>,
)
    requires
        scope.0 is Some,
    ensures
        partition_spec(from_scope_spec(Some(scope)), visibility) == Some(global_partition_spec()) <==> (
        scope.1 && visibility == Some(Visibility::Global)),
{
    let key = scope.0->0;
    if !(scope.1 && visibility == Some(Visibility::Global)) {
        crate::memory_scopes::lemma_scope_partition_is_not_global(key);
    }
}

/// The routing a thread gets when its registered scope cannot be read:
/// fail closed, store nothing.
pub fn routing_when_unreadable() -> (r: ThreadRouting)
    ensures
        routing_view(r) == Some(None::<(Seq<char>, bool)>),
{
    ThreadRouting::Drop
}

/// The visibility named by a Phase 1 response's field: only the string
/// `global` means global; a missing or other value means private.
pub open spec fn visibility_of_spec(field: Option<Seq<char>>) -> Visibility {
    if field == Some("global"@) {
        Visibility::Global
    } else {
        Visibility::Private
    }
}

pub fn visibility_of(field: Option<&str>) -> (r: Visibility)
    ensures
        r == visibility_of_spec(match field {
            Some(f) => Some(f@),
            None => None,
        }),
{
    match field {
        Some(f) => {
            let g = chars_of("global");
            if crate::text::chars_eq(&chars_of(f), &g) {
                Visibility::Global
            } else {
                Visibility::Private
            }
        },
        None => Visibility::Private,
    }
}

/// A Phase 1 response with the visibility field taken out, if it parses as
/// a JSON object: the rest of the object as JSON text, and the field's
/// value if it is a string.
pub uninterp spec fn json_without_field(source: Seq<char>, field: Seq<char>) -> Option<(Seq<char>, Option<Seq<char>>)>;

/// Trusted: parses `source` with `serde_json::from_str` as a
/// `serde_json::Value`; for an object, removes `field` with `Map::remove`,
/// and gives back the rest serialized with `to_string` and the removed value
/// if it was a `Value::String`. Not an object, or not JSON: `None`. What the
/// serialization looks like is left to the name.
#[verifier::external_body]
fn take_json_field(source: &str, field: &str) -> (r: Option<(String, Option<String>)>)
    ensures
        match r {
            Some((rest, value)) => json_without_field(source@, field@) == Some((rest@, opt_str_view(value))),
            None => json_without_field(source@, field@) is None,
        },
{
    match serde_json::from_str::<serde_json::Value>(source) {
        Ok(serde_json::Value::Object(mut object)) => {
            let value = match object.remove(field) {
                Some(serde_json::Value::String(value)) => Some(value),
                _ => None,
            };
            Some((serde_json::Value::Object(object).to_string(), value))
        },
        _ => None,
    }
}

pub open spec fn split_visibility_spec(parsed: Option<(Seq<char>, Option<Seq<char>>)>, source: Seq<char>) -> (Seq<char>, Visibility) {
    match parsed {
        None => (source, Visibility::Private),
        Some((rest, value)) => (rest, visibility_of_spec(value)),
    }
}

/// Removes the visibility field from a Phase 1 response so the Phase 1
/// output parser accepts it. Missing or unknown values mean private; text that is
/// not a JSON object is kept as it is, private.
pub fn split_visibility(source: &str) -> (r: (String, Visibility))
    ensures
        (r.0@, r.1) == split_visibility_spec(json_without_field(source@, VISIBILITY_FIELD@), source@),
{
    split_parsed_visibility(take_json_field(source, VISIBILITY_FIELD), source)
}

/// The response without its visibility field and the verdict, given the
/// response parsed with that field taken out (`None` when it is not a JSON
/// object).
pub fn split_parsed_visibility(parsed: Option<(String, Option<String>)>, source: &str) -> (r: (String, Visibility))
    ensures
        (r.0@, r.1) == split_visibility_spec(
            match parsed {
                Some((rest, value)) => Some((rest@, opt_str_view(value))),
                None => None,
            },
            source@,
        ),
{
    match parsed {
        None => (string_of(&chars_of(source)), Visibility::Private),
        Some((rest, value)) => {
            let v = match &value {
                Some(s) => visibility_of(Some(s.as_str())),
                None => visibility_of(None),
            };
            (rest, v)
        },
    }
}

/// A required string field of an output schema, limited to some values.
#[derive(Debug, Clone, PartialEq, Eq)]
pub struct EnumField {
    pub name: &'static str,
    pub value_type: &'static str,
    pub values: Vec<&'static str>,
}

/// The field the Phase 1 output schema gains for the visibility: the
/// required string `memory_visibility`, one of `global` and `private`.
pub fn visibility_schema_field() -> (r: EnumField)
    ensures
        r.name@ == VISIBILITY_FIELD@,
        r.value_type@ == "string"@,
        r.values@.len() == 2,
        r.values@[0]@ == "global"@,
        r.values@[1]@ == "private"@,
{
    EnumField { name: VISIBILITY_FIELD, value_type: "string", values: vec!["global", "private"] }
}

/// The Phase 1 instructions with the visibility classification added.
pub fn add_classification_instructions(instructions: &mut String)
    ensures
        final(instructions)@ == old(instructions)@ + CLASSIFICATION_INSTRUCTIONS@,
{
    crate::text::push_str(instructions, CLASSIFICATION_INSTRUCTIONS);
}

/// The memory settings that decide whether memory scopes are in play.
pub struct MemoriesConfig {
    pub scope_key: Option<String>,
    pub may_write_global: bool,
    pub auto_consolidate: bool,
    pub extra_session_sources: Vec<String>,
}

impl MemoriesConfig {
    /// Without memory scopes: no scope, global writes and automatic
    /// consolidation allowed, no extra session sources.
    pub fn defaults() -> (r: MemoriesConfig)
        ensures
            r.scope_key is None,
            r.may_write_global,
            r.auto_consolidate,
            r.extra_session_sources@.len() == 0,
    {
        MemoriesConfig { scope_key: None, may_write_global: true, auto_consolidate: true, extra_session_sources: Vec::new() }
    }
}

/// Whether any memory-scope option is set: a scope, a thread that may not
/// write the global store, manual consolidation, or extra session sources.
pub fn fork_mode_active(memories: &MemoriesConfig) -> (r: bool)
    ensures
        r == (memories.scope_key is Some || !memories.may_write_global || !memories.auto_consolidate
            || memories.extra_session_sources@.len() > 0),
{
    memories.scope_key.is_some() || !memories.may_write_global || !memories.auto_consolidate
        || memories.extra_session_sources.len() > 0
}

/// How a consolidation agent's config is changed from its parent's: with
/// memory scopes in play it inherits no host persona (base and developer
/// instructions cleared) and leaves code mode, so that it calls its tools
/// directly. With a codex executable (a local execution environment) it gets
/// the shell tool back and is told its platform; without one no shell can
/// be registered, so the memories extension serves the memory files
/// instead (`maintenance_tools`). Without memory scopes it is left alone.
#[derive(Debug, Clone, Copy, PartialEq, Eq, Structural)]
pub struct AgentConfigAdjustments {
    pub clear_base_instructions: bool,
    pub clear_developer_instructions: bool,
    pub leave_code_mode: bool,
    pub enable_shell_tool: bool,
    pub include_environment_context: bool,
    pub maintenance_tools: bool,
}

/// The changes to a consolidation agent's config; none unless memory
/// scopes are in play for the parent thread. `has_codex_exe` is whether the
/// parent has a codex executable to run commands with.
pub fn agent_config_adjustments(parent: &MemoriesConfig, has_codex_exe: bool) -> (r: Option<AgentConfigAdjustments>)
    ensures
        r is Some <==> (parent.scope_key is Some || !parent.may_write_global || !parent.auto_consolidate
            || parent.extra_session_sources@.len() > 0),
        r matches Some(a) ==> a == (AgentConfigAdjustments {
            clear_base_instructions: true,
            clear_developer_instructions: true,
            leave_code_mode: true,
            enable_shell_tool: has_codex_exe,
            include_environment_context: has_codex_exe,
            maintenance_tools: !has_codex_exe,
        }),
{
    if !fork_mode_active(parent) {
        return None;
    }
    Some(
        AgentConfigAdjustments {
            clear_base_instructions: true,
            clear_developer_instructions: true,
            leave_code_mode: true,
            enable_shell_tool: has_codex_exe,
            include_environment_context: has_codex_exe,
            maintenance_tools: !has_codex_exe,
        },
    )
}

/// What a consolidation agent without a shell is told about the memory-file
/// tools it has instead.
pub const MAINTENANCE_TOOLS_NOTE: &'static str = "\n\n## Memory file tools\n\nThis session has no shell. Work on the memory files with the `memories` tools instead: `memories.list` lists the files under the memory root, `memories.read` reads one, and `memories.write` creates or replaces one. Paths may be given relative to the memory root or as absolute paths under it.\n";

/// The consolidation prompt with the note on the memory-file tools, when
/// they are on; unchanged otherwise.
pub fn append_maintenance_tools_note(prompt: &mut String, tools_on: bool)
    ensures
        tools_on ==> final(prompt)@ == old(prompt)@ + MAINTENANCE_TOOLS_NOTE@,
        !tools_on ==> final(prompt)@ == old(prompt)@,
{
    if tools_on {
        crate::text::push_str(prompt, MAINTENANCE_TOOLS_NOTE);
    }
}

/// Whether a thread registers a scope row at startup: it has a key, or may
/// not write the global store.
pub fn registers_scope(memories: &MemoriesConfig) -> (r: bool)
    ensures
        r == (memories.scope_key is Some || !memories.may_write_global),
{
    !(memories.scope_key.is_none() && memories.may_write_global)
}

/// Phase 2 consolidation target: one partition; its root is resolved by the
/// caller from `scoped` and the scope key.
pub struct Phase2Target {
    pub partition: String,
    pub scoped: bool,
    pub skip_cooldown: bool,
}

impl Phase2Target {
    pub fn global(skip_cooldown: bool) -> (r: Phase2Target)
        ensures
            r.partition@ == global_partition_spec(),
            !r.scoped,
            r.skip_cooldown == skip_cooldown,
    {
        Phase2Target { partition: global_memory_partition(), scoped: false, skip_cooldown }
    }

    pub fn scope(scope_key: &str, skip_cooldown: bool) -> (r: Phase2Target)
        ensures
            r.partition@ == scope_partition_spec(scope_key@),
            r.scoped,
            r.skip_cooldown == skip_cooldown,
    {
        Phase2Target { partition: memory_scope_partition(scope_key), scoped: true, skip_cooldown }
    }
}

/// What a consolidation prompt gets appended: a scope's own rules, or the
/// shared-store rules once any thread registered a scope (or when that is
/// not known); nothing otherwise.
pub open spec fn consolidation_addendum_spec(scoped: bool, has_scopes: Option<bool>) -> Option<Seq<char>> {
    if scoped {
        Some(SCOPE_CONSOLIDATION_ADDENDUM@)
    } else if has_scopes == Some(false) {
        None
    } else {
        Some(GLOBAL_CONSOLIDATION_ADDENDUM@)
    }
}

/// `has_scopes` is whether any thread registered a private scope, `None`
/// when the store could not say.
pub fn consolidation_addendum(target: &Phase2Target, has_scopes: Option<bool>) -> (r: Option<&'static str>)
    ensures
        match r {
            Some(s) => consolidation_addendum_spec(target.scoped, has_scopes) == Some(s@),
            None => consolidation_addendum_spec(target.scoped, has_scopes) is None,
        },
{
    if target.scoped {
        Some(SCOPE_CONSOLIDATION_ADDENDUM)
    } else {
        match has_scopes {
            Some(false) => None,
            _ => Some(GLOBAL_CONSOLIDATION_ADDENDUM),
        }
    }
}

/// The partitions whose consolidation is queued after an output is stored
/// in `partition`: that one, and the one it moved out of, if any.
pub fn partitions_to_enqueue(partition: &str, previous: Option<&str>) -> (r: Vec<String>)
    ensures
        r@.len() >= 1,
        r@[0]@ == partition@,
        r@.len() == 2 <==> (previous matches Some(p) && p@ != partition@),
        r@.len() == 2 ==> (previous matches Some(p) && r@[1]@ == p@),
        r@.len() <= 2,
{
    let mut r: Vec<String> = Vec::new();
    r.push(string_of(&chars_of(partition)));
    match previous {
        Some(p) => {
            if !crate::text::chars_eq(&chars_of(p), &chars_of(partition)) {
                r.push(string_of(&chars_of(p)));
            }
        },
        None => {},
    }
    r
}

/// Layout version of a memory store.
#[derive(Debug, Clone, Copy, PartialEq, Eq, Structural)]
pub enum MemoryVersion {
    V1,
    V2,
}

/// Why a consolidation cannot run.
#[derive(Debug, Clone, Copy, PartialEq, Eq, Structural)]
pub enum ConsolidationRefusal {
    /// The thread is ephemeral or its memory tool is off.
    MemoriesDisabled,
    /// The memory store of a version could not be opened.
    StateDbUnavailable,
    /// Too little of the rate limits is left for the phases.
    RateLimitsTooLow,
}

impl ConsolidationRefusal {
    /// What the host is told.
    pub fn message(self) -> (r: &'static str)
        ensures
            self == ConsolidationRefusal::MemoriesDisabled ==> r@ == "memories are disabled for this thread"@,
            self == ConsolidationRefusal::StateDbUnavailable ==> r@ == "state db unavailable for memories"@,
            self == ConsolidationRefusal::RateLimitsTooLow ==> r@ == "memory consolidation skipped: rate limits too low"@,
    {
        match self {
            ConsolidationRefusal::MemoriesDisabled => "memories are disabled for this thread",
            ConsolidationRefusal::StateDbUnavailable => "state db unavailable for memories",
            ConsolidationRefusal::RateLimitsTooLow => "memory consolidation skipped: rate limits too low",
        }
    }
}

/// What a pipeline run of a consolidation found out.
#[derive(Debug, Clone, Copy, PartialEq, Eq, Structural)]
pub enum PipelineEvent {
    /// Whether the version's memory store could be opened.
    StoreOpened(bool),
    /// Whether enough of the rate limits is left, checked after the scope
    /// was prepared and old outputs pruned.
    RateLimitsChecked(bool),
}

/// What a pipeline run does next.
#[derive(Debug, Clone, Copy, PartialEq, Eq, Structural)]
pub enum PipelineAction {
    /// Lay out the store, prepare the scope, prune, then check the rate
    /// limits.
    PrepareAndCheckRateLimits,
    /// Run Phase 1, then Phase 2 for the shared store and the scope.
    RunPhases,
    /// Stop the whole consolidation with this refusal.
    Refuse(ConsolidationRefusal),
}

/// The next step of a pipeline run: without a store the consolidation is
/// refused; with one, the run prepares and checks the rate limits, and runs
/// its phases only when enough is left (else it is refused, counted as
/// skipped).
pub fn pipeline_next(event: PipelineEvent) -> (r: PipelineAction)
    ensures
        event == PipelineEvent::StoreOpened(false) ==> r == PipelineAction::Refuse(ConsolidationRefusal::StateDbUnavailable),
        event == PipelineEvent::StoreOpened(true) ==> r == PipelineAction::PrepareAndCheckRateLimits,
        event == PipelineEvent::RateLimitsChecked(false) ==> r == PipelineAction::Refuse(ConsolidationRefusal::RateLimitsTooLow),
        event == PipelineEvent::RateLimitsChecked(true) ==> r == PipelineAction::RunPhases,
{
    match event {
        PipelineEvent::StoreOpened(false) => PipelineAction::Refuse(ConsolidationRefusal::StateDbUnavailable),
        PipelineEvent::StoreOpened(true) => PipelineAction::PrepareAndCheckRateLimits,
        PipelineEvent::RateLimitsChecked(false) => PipelineAction::Refuse(ConsolidationRefusal::RateLimitsTooLow),
        PipelineEvent::RateLimitsChecked(true) => PipelineAction::RunPhases,
    }
}

/// One pipeline run of a consolidation: the store version, and whether the
/// Phase 1 rollout idle requirement is lifted (`min_rollout_idle_hours` 0).
#[derive(Debug, Clone, Copy, PartialEq, Eq, Structural)]
pub struct PipelineRun {
    pub version: MemoryVersion,
    pub no_idle_wait: bool,
}

/// The pipeline runs of an immediate consolidation: refused for an
/// ephemeral thread or one without the memory tool; else one run per store
/// version (both under dual write), each lifting the idle requirement when
/// forced.
pub fn consolidation_runs(
    ephemeral: bool,
    memory_tool_enabled: bool,
    dual_write: bool,
    version: MemoryVersion,
    force: bool,
) -> (r: Result<Vec<PipelineRun>, ConsolidationRefusal>)
    ensures
        (ephemeral || !memory_tool_enabled) <==> r is Err,
        r matches Err(e) ==> e == ConsolidationRefusal::MemoriesDisabled,
        r matches Ok(runs) ==> (dual_write ==> runs@ == seq![
            PipelineRun { version: MemoryVersion::V1, no_idle_wait: force },
            PipelineRun { version: MemoryVersion::V2, no_idle_wait: force },
        ]) && (!dual_write ==> runs@ == seq![PipelineRun { version, no_idle_wait: force }]),
{
    if ephemeral || !memory_tool_enabled {
        return Err(ConsolidationRefusal::MemoriesDisabled);
    }
    if dual_write {
        Ok(vec![
            PipelineRun { version: MemoryVersion::V1, no_idle_wait: force },
            PipelineRun { version: MemoryVersion::V2, no_idle_wait: force },
        ])
    } else {
        Ok(vec![PipelineRun { version, no_idle_wait: force }])
    }
}

} // verus!
