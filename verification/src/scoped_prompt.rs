//! What a thread with memory scope settings is told about its memories, and
//! which memory tools it gets.

use vstd::prelude::*;
use crate::scoped::Permission;
use crate::scoped::DELETE_SCOPE;
use crate::scoped::WRITE_GLOBAL_SCOPE;
use crate::text::push_str;

verus! {

pub const NO_GLOBAL_WRITE_INSTRUCTIONS: &'static str = "\n\n## Shared memory is read-only in this chat\n\nThis memory folder is SHARED with every other chat. This chat may not write to it: do not create ad-hoc update notes or any other file under it, even when asked to remember something. Tell the user that memories cannot be saved here.\n";

pub const DELETE_TOOL_INSTRUCTIONS: &'static str = "\n\n## Deleting memories\n\nThe `memories` tools include `delete_memory`, which permanently deletes one memory file by relative path. Use it only when the user explicitly asks to delete or forget a stored memory, and delete nothing else.\n";

pub const PRIVATE_HEADING: &'static str = "\n\n## Chat-private memories\n\n";

pub const INTRO_SHARED_DESCRIBED_START: &'static str = "This chat also has a PRIVATE memory folder at ";

pub const INTRO_SHARED_DESCRIBED_END: &'static str = ". The memory folder described above is SHARED with every other chat; the private folder is visible only in this chat and may contain information about the people here.";

pub const INTRO_PRIVATE_DESCRIBED_START: &'static str = "The memory folder described above is PRIVATE to this chat and may contain information about the people here. The SHARED memory folder at ";

pub const INTRO_PRIVATE_DESCRIBED_END: &'static str = " is visible to every other chat.";

pub const PRIVACY_RULES_START: &'static str = "\n\n- Never reveal private memories outside this chat and never copy personal information (identifiers, contact info, relationships, health, finances, locations, per-user preferences, group-internal matters) into shared memory.\n- Memory update notes requested by the user go to ";

pub const PRIVACY_RULES_END: &'static str = "/, never to the shared folder's notes directory.\n";

pub const NO_SHARED_WRITE_LINE: &'static str = "- This chat may not write to the shared folder at all.\n";

pub const TOOL_PATHS_LINE: &'static str = "- With the `memories` tools, paths starting with `global/` address the shared folder and paths starting with `local/` address the private folder.\n";

pub const AD_HOC_EITHER_LINE: &'static str = "- `add_ad_hoc_note` writes to the private folder by default; pass `scope: \"global\"` only for impersonal knowledge useful in every chat.\n";

pub const AD_HOC_PRIVATE_LINE: &'static str = "- `add_ad_hoc_note` writes to the private folder; this chat cannot write shared memories.\n";

pub const DELETE_EITHER_LINE: &'static str = "- `delete_memory` permanently deletes one memory file at the given `global/` or `local/` path; use it only when the user asks to delete or forget a stored memory.\n";

pub const AD_HOC_TURN_LINE: &'static str = "- `add_ad_hoc_note` writes to the private folder by default; pass `scope: \"global\"` for impersonal knowledge useful in every chat only when the sender's message metadata says they may manage shared memories.\n";

pub const DELETE_TURN_LINE: &'static str = "- `delete_memory` permanently deletes one memory file at the given `global/` or `local/` path when the user asks to delete or forget a stored memory, only when the sender's message metadata says they may delete memories";

pub const DELETE_TURN_GLOBAL_LINE: &'static str = "- `delete_memory` permanently deletes one memory file at the given `global/` or `local/` path when the user asks to delete or forget a stored memory";

pub const TURN_SHARED_CONDITION: &'static str = "; `global/` paths only when it says they may manage shared memories";

pub const TURN_SHARED_DELETE_CONDITION: &'static str = "; `global/` paths only when the sender's message metadata says they may manage shared memories";

pub const LINE_END: &'static str = ".\n";

pub const DELETE_PRIVATE_LINE: &'static str = "- `delete_memory` permanently deletes one `local/` memory file when the user asks to delete or forget it; shared memories cannot be deleted here.\n";

pub const SUMMARY_BEGINS: &'static str = "\n========= PRIVATE MEMORY_SUMMARY BEGINS =========\n";

pub const SUMMARY_ENDS: &'static str = "\n========= PRIVATE MEMORY_SUMMARY ENDS =========\n";

pub const DELETE_TOOL_DESCRIPTION: &'static str = "Permanently delete one Codex memory file by relative path. Only use it when the user explicitly asks to delete or forget a stored memory, and delete nothing else.";

pub const DELETE_LOCAL_ONLY_DESCRIPTION: &'static str = " Only this chat's `local/...` memories can be deleted; `global/...` memories are shared and must be left alone.";

/// Scope settings of a thread. With `turn_scopes` the curating tools are
/// registered for everyone, and whether the sender of the current turn may
/// write shared memories or delete memories is up to the permission scopes
/// that turn carries (unless the thread's own settings allow it anyway).
#[derive(Clone, Debug)]
pub struct ScopedMemoriesConfig {
    pub scope_key: Option<String>,
    pub may_write_global: bool,
    pub may_delete: bool,
    pub turn_scopes: bool,
}

/// Which developer instructions a thread gets.
#[derive(Debug, Clone, Copy, PartialEq, Eq, Structural)]
pub enum InstructionsPlan {
    /// The instructions for the shared store and the thread's own scope.
    Scoped,
    /// The standard instructions, unchanged.
    Standard,
    /// The standard instructions, with the note that the shared store is
    /// read-only here.
    StandardReadOnly,
    /// The standard instructions, with the note on `delete_memory`.
    StandardWithDelete,
}

pub open spec fn instructions_plan_spec(scope: Option<(bool, bool, bool, bool)>, dedicated_tools: bool) -> InstructionsPlan {
    match scope {
        Some((has_key, may_write_global, may_delete, turn_scopes)) => if has_key {
            InstructionsPlan::Scoped
        } else if !may_write_global && !turn_scopes {
            InstructionsPlan::StandardReadOnly
        } else if dedicated_tools && (may_delete || turn_scopes) {
            InstructionsPlan::StandardWithDelete
        } else {
            InstructionsPlan::Standard
        },
        None => InstructionsPlan::Standard,
    }
}

pub open spec fn config_flags(scope: Option<&ScopedMemoriesConfig>) -> Option<(bool, bool, bool, bool)> {
    match scope {
        Some(s) => Some((s.scope_key is Some, s.may_write_global, s.may_delete, s.turn_scopes)),
        None => None,
    }
}

/// Which instructions a thread gets: threads without scope settings get the
/// standard ones unchanged; `delete_memory` is mentioned only where it is
/// registered (`dedicated_tools`). With `turn_scopes` the shared store is
/// not read-only, and `delete_memory` is registered.
pub fn instructions_plan(scope: Option<&ScopedMemoriesConfig>, dedicated_tools: bool) -> (r: InstructionsPlan)
    ensures
        r == instructions_plan_spec(config_flags(scope), dedicated_tools),
{
    match scope {
        Some(s) => if s.scope_key.is_some() {
            InstructionsPlan::Scoped
        } else if !s.may_write_global && !s.turn_scopes {
            InstructionsPlan::StandardReadOnly
        } else if dedicated_tools && (s.may_delete || s.turn_scopes) {
            InstructionsPlan::StandardWithDelete
        } else {
            InstructionsPlan::Standard
        },
        None => InstructionsPlan::Standard,
    }
}

pub open spec fn with_note_spec(plan: InstructionsPlan, standard: Option<Seq<char>>) -> Option<Seq<char>> {
    match standard {
        None => None,
        Some(text) => Some(
            match plan {
                InstructionsPlan::StandardReadOnly => text + NO_GLOBAL_WRITE_INSTRUCTIONS@,
                InstructionsPlan::StandardWithDelete => text + DELETE_TOOL_INSTRUCTIONS@,
                _ => text,
            },
        ),
    }
}

pub open spec fn opt_view(o: Option<String>) -> Option<Seq<char>> {
    match o {
        Some(s) => Some(s@),
        None => None,
    }
}

/// The standard instructions with the note the plan asks for; none when
/// there are no standard instructions.
pub fn standard_with_note(plan: InstructionsPlan, standard: Option<String>) -> (r: Option<String>)
    ensures
        opt_view(r) == with_note_spec(plan, opt_view(standard)),
{
    match standard {
        None => None,
        Some(mut text) => {
            match plan {
                InstructionsPlan::StandardReadOnly => push_str(&mut text, NO_GLOBAL_WRITE_INSTRUCTIONS),
                InstructionsPlan::StandardWithDelete => push_str(&mut text, DELETE_TOOL_INSTRUCTIONS),
                _ => {},
            }
            Some(text)
        },
    }
}

/// Whether the instructions for the scope's own root are needed: only when
/// there are no shared-store instructions but the scope has a summary.
pub fn needs_private_root_instructions(has_global: bool, has_local_summary: bool) -> (r: bool)
    ensures
        r == (!has_global && has_local_summary),
{
    !has_global && has_local_summary
}

pub open spec fn intro_spec(shared_described: bool, local_root: Seq<char>, shared_root: Seq<char>) -> Seq<char> {
    if shared_described {
        INTRO_SHARED_DESCRIBED_START@ + local_root + INTRO_SHARED_DESCRIBED_END@
    } else {
        INTRO_PRIVATE_DESCRIBED_START@ + shared_root + INTRO_PRIVATE_DESCRIBED_END@
    }
}

/// The line on `delete_memory`, if it is registered.
pub open spec fn delete_line_spec(may_write_global: bool, may_delete: bool, turn_scopes: bool) -> Seq<char> {
    if !may_delete && !turn_scopes {
        seq![]
    } else if !turn_scopes {
        if may_write_global {
            DELETE_EITHER_LINE@
        } else {
            DELETE_PRIVATE_LINE@
        }
    } else if may_delete {
        if may_write_global {
            DELETE_EITHER_LINE@
        } else {
            DELETE_TURN_GLOBAL_LINE@ + TURN_SHARED_DELETE_CONDITION@ + LINE_END@
        }
    } else if may_write_global {
        DELETE_TURN_LINE@ + LINE_END@
    } else {
        DELETE_TURN_LINE@ + TURN_SHARED_CONDITION@ + LINE_END@
    }
}

pub open spec fn tool_lines_spec(dedicated_tools: bool, may_write_global: bool, may_delete: bool, turn_scopes: bool) -> Seq<char> {
    if !dedicated_tools {
        seq![]
    } else {
        TOOL_PATHS_LINE@ + (if may_write_global {
            AD_HOC_EITHER_LINE@
        } else if turn_scopes {
            AD_HOC_TURN_LINE@
        } else {
            AD_HOC_PRIVATE_LINE@
        }) + delete_line_spec(may_write_global, may_delete, turn_scopes)
    }
}

/// The text and whether it describes the shared store: the shared-store
/// instructions if any; else, when the scope has a summary, the
/// instructions for the scope's own root.
pub open spec fn scoped_base_spec(
    global: Option<Seq<char>>,
    local_summary: Option<Seq<char>>,
    private_root: Option<Seq<char>>,
) -> Option<(Seq<char>, bool)> {
    match global {
        Some(g) => Some((g, true)),
        None => match local_summary {
            None => None,
            Some(_) => match private_root {
                Some(p) => Some((p, false)),
                None => None,
            },
        },
    }
}

/// Developer instructions covering the shared store and the thread's scope.
pub open spec fn scoped_instructions_spec(
    global: Option<Seq<char>>,
    local_summary: Option<Seq<char>>,
    private_root: Option<Seq<char>>,
    local_root: Seq<char>,
    shared_root: Seq<char>,
    may_write_global: bool,
    may_delete: bool,
    turn_scopes: bool,
    dedicated_tools: bool,
) -> Option<Seq<char>> {
    match scoped_base_spec(global, local_summary, private_root) {
        None => None,
        Some((text, described)) => Some(
            text + private_section_spec(described, local_root, shared_root, may_write_global || turn_scopes)
                + tool_lines_spec(dedicated_tools, may_write_global, may_delete, turn_scopes) + summary_spec(local_summary),
        ),
    }
}

/// The strings shown for the thread's roots.
pub struct ScopeRoots {
    /// The scope's own root.
    pub local_root: String,
    /// The shared store's root.
    pub shared_root: String,
}

/// Where a scope's update notes go, under its root.
pub const AD_HOC_NOTES_SUBDIR: &'static str = "/extensions/ad_hoc/notes";

/// The directory of a scope's update notes: `extensions/ad_hoc/notes`
/// under its root.
pub open spec fn local_notes_spec(local_root: Seq<char>) -> Seq<char> {
    local_root + AD_HOC_NOTES_SUBDIR@
}

/// The directory of a scope's update notes, as the instructions name it.
pub fn local_notes_dir(local_root: &str) -> (r: String)
    ensures
        r@ == local_notes_spec(local_root@),
{
    let mut r = local_root.to_owned();
    push_str(&mut r, AD_HOC_NOTES_SUBDIR);
    r
}

/// Developer instructions for a thread with a scope. `global` is the
/// standard text for the shared store, `local_summary` the scope's memory
/// summary, `private_root` the standard text for the scope's own root
/// (needed only without `global`).
pub fn scoped_instructions(
    global: Option<String>,
    local_summary: Option<String>,
    private_root: Option<String>,
    roots: &ScopeRoots,
    scope: &ScopedMemoriesConfig,
    dedicated_tools: bool,
) -> (r: Option<String>)
    ensures
        opt_view(r) == scoped_instructions_spec(
            opt_view(global),
            opt_view(local_summary),
            opt_view(private_root),
            roots.local_root@,
            roots.shared_root@,
            scope.may_write_global,
            scope.may_delete,
            scope.turn_scopes,
            dedicated_tools,
        ),
{
    let ghost base = scoped_base_spec(opt_view(global), opt_view(local_summary), opt_view(private_root));
    let (mut text, described) = match global {
        Some(g) => (g, true),
        None => match &local_summary {
            None => {
                return None;
            },
            Some(_) => match private_root {
                Some(p) => (p, false),
                None => {
                    return None;
                },
            },
        },
    };
    assert(base == Some((text@, described)));
    let ghost start = text@;
    push_private_section(&mut text, described, roots, scope.may_write_global || scope.turn_scopes);
    let ghost mid = text@;
    push_tool_lines(&mut text, dedicated_tools, scope.may_write_global, scope.may_delete, scope.turn_scopes);
    let ghost mid2 = text@;
    push_summary(&mut text, &local_summary);
    proof {
        let full = scoped_instructions_spec(
            opt_view(global),
            opt_view(local_summary),
            opt_view(private_root),
            roots.local_root@,
            roots.shared_root@,
            scope.may_write_global,
            scope.may_delete,
            scope.turn_scopes,
            dedicated_tools,
        );
        assert(full is Some);
        assert(text@ =~= full->0);
    }
    Some(text)
}

/// The scope's memory summary between its markers, if it has one.
pub open spec fn summary_spec(local_summary: Option<Seq<char>>) -> Seq<char> {
    match local_summary {
        Some(s) => SUMMARY_BEGINS@ + s + SUMMARY_ENDS@,
        None => seq![],
    }
}

pub open spec fn private_section_spec(described: bool, local_root: Seq<char>, shared_root: Seq<char>, may_write_global: bool) -> Seq<char> {
    PRIVATE_HEADING@ + intro_spec(described, local_root, shared_root) + PRIVACY_RULES_START@ + local_notes_spec(local_root)
        + PRIVACY_RULES_END@ + (if may_write_global {
        seq![]
    } else {
        NO_SHARED_WRITE_LINE@
    })
}

fn push_private_section(text: &mut String, described: bool, roots: &ScopeRoots, may_write_global: bool)
    ensures
        final(text)@ == old(text)@ + private_section_spec(described, roots.local_root@, roots.shared_root@, may_write_global),
{
    push_str(text, PRIVATE_HEADING);
    if described {
        push_str(text, INTRO_SHARED_DESCRIBED_START);
        push_str(text, roots.local_root.as_str());
        push_str(text, INTRO_SHARED_DESCRIBED_END);
    } else {
        push_str(text, INTRO_PRIVATE_DESCRIBED_START);
        push_str(text, roots.shared_root.as_str());
        push_str(text, INTRO_PRIVATE_DESCRIBED_END);
    }
    push_str(text, PRIVACY_RULES_START);
    push_str(text, roots.local_root.as_str());
    push_str(text, AD_HOC_NOTES_SUBDIR);
    push_str(text, PRIVACY_RULES_END);
    if !may_write_global {
        push_str(text, NO_SHARED_WRITE_LINE);
    }
    assert(text@ =~= old(text)@ + private_section_spec(described, roots.local_root@, roots.shared_root@, may_write_global));
}

fn push_delete_line(text: &mut String, may_write_global: bool, may_delete: bool, turn_scopes: bool)
    ensures
        final(text)@ == old(text)@ + delete_line_spec(may_write_global, may_delete, turn_scopes),
{
    if !may_delete && !turn_scopes {
    } else if !turn_scopes {
        if may_write_global {
            push_str(text, DELETE_EITHER_LINE);
        } else {
            push_str(text, DELETE_PRIVATE_LINE);
        }
    } else if may_delete {
        if may_write_global {
            push_str(text, DELETE_EITHER_LINE);
        } else {
            push_str(text, DELETE_TURN_GLOBAL_LINE);
            push_str(text, TURN_SHARED_DELETE_CONDITION);
            push_str(text, LINE_END);
        }
    } else if may_write_global {
        push_str(text, DELETE_TURN_LINE);
        push_str(text, LINE_END);
    } else {
        push_str(text, DELETE_TURN_LINE);
        push_str(text, TURN_SHARED_CONDITION);
        push_str(text, LINE_END);
    }
    assert(text@ =~= old(text)@ + delete_line_spec(may_write_global, may_delete, turn_scopes));
}

fn push_tool_lines(text: &mut String, dedicated_tools: bool, may_write_global: bool, may_delete: bool, turn_scopes: bool)
    ensures
        final(text)@ == old(text)@ + tool_lines_spec(dedicated_tools, may_write_global, may_delete, turn_scopes),
{
    if dedicated_tools {
        push_str(text, TOOL_PATHS_LINE);
        if may_write_global {
            push_str(text, AD_HOC_EITHER_LINE);
        } else if turn_scopes {
            push_str(text, AD_HOC_TURN_LINE);
        } else {
            push_str(text, AD_HOC_PRIVATE_LINE);
        }
        push_delete_line(text, may_write_global, may_delete, turn_scopes);
    }
    assert(text@ =~= old(text)@ + tool_lines_spec(dedicated_tools, may_write_global, may_delete, turn_scopes));
}

fn push_summary(text: &mut String, local_summary: &Option<String>)
    ensures
        final(text)@ == old(text)@ + summary_spec(opt_view(*local_summary)),
{
    match local_summary {
        Some(s) => {
            push_str(text, SUMMARY_BEGINS);
            push_str(text, s.as_str());
            push_str(text, SUMMARY_ENDS);
        },
        None => {},
    }
    assert(text@ =~= old(text)@ + summary_spec(opt_view(*local_summary)));
}

/// Backend the memory tools of a thread work on.
#[derive(Debug, Clone, Copy, PartialEq, Eq, Structural)]
pub enum ToolBackend {
    /// The single shared store.
    Global,
    /// The shared store and the thread's scope, by `global/` and `local/`.
    Scoped,
}

/// The `add_ad_hoc_note` tool a thread gets.
#[derive(Debug, Clone, Copy, PartialEq, Eq)]
pub enum AdHocTool {
    /// None: the thread cannot write notes.
    Omitted,
    /// The plain tool, writing to the backend's own notes (the shared store
    /// without a scope, the thread's scope with one), when `permission`
    /// allows.
    Plain { permission: Permission },
    /// The scope-choosing tool: notes go to the thread's scope, or to the
    /// shared store when `global` allows.
    ScopeChoosing { global: Permission },
}

/// `delete_memory` as registered: deleting at all needs `permission`, and
/// deleting shared memories needs `global` too.
#[derive(Debug, Clone, Copy, PartialEq, Eq)]
pub struct DeleteTool {
    pub permission: Permission,
    pub global: Permission,
}

/// The memory tools of a thread with scope settings.
#[derive(Debug, Clone, Copy, PartialEq, Eq)]
pub struct ToolPlan {
    pub backend: ToolBackend,
    pub ad_hoc: AdHocTool,
    pub delete: Option<DeleteTool>,
}

/// Whether the thread may write the shared store: always, when its turns
/// say so, or never.
pub open spec fn write_global_permission(may_write_global: bool, turn_scopes: bool) -> Permission {
    if may_write_global {
        Permission::Fixed(true)
    } else if turn_scopes {
        Permission::Scope(WRITE_GLOBAL_SCOPE)
    } else {
        Permission::Fixed(false)
    }
}

/// Whether the thread may delete: always, or when its turns say so.
pub open spec fn delete_permission(may_delete: bool) -> Permission {
    if may_delete {
        Permission::Fixed(true)
    } else {
        Permission::Scope(DELETE_SCOPE)
    }
}

pub open spec fn tool_plan_spec(has_key: bool, may_write_global: bool, may_delete: bool, turn_scopes: bool) -> Option<ToolPlan> {
    let global = write_global_permission(may_write_global, turn_scopes);
    let delete = DeleteTool { permission: delete_permission(may_delete), global };
    if !has_key {
        if may_write_global && !may_delete && !turn_scopes {
            None
        } else {
            Some(
                ToolPlan {
                    backend: ToolBackend::Global,
                    ad_hoc: if may_write_global || turn_scopes {
                        AdHocTool::Plain { permission: global }
                    } else {
                        AdHocTool::Omitted
                    },
                    delete: if (may_write_global || turn_scopes) && (may_delete || turn_scopes) {
                        Some(delete)
                    } else {
                        None
                    },
                },
            )
        }
    } else {
        Some(
            ToolPlan {
                backend: ToolBackend::Scoped,
                ad_hoc: if may_write_global || turn_scopes {
                    AdHocTool::ScopeChoosing { global }
                } else {
                    AdHocTool::Plain { permission: Permission::Fixed(true) }
                },
                delete: if may_delete || turn_scopes {
                    Some(delete)
                } else {
                    None
                },
            },
        )
    }
}

/// The memory tools of a thread with scope settings, or `None` for the
/// standard tools. Without a scope: a thread that may write the shared
/// store gets the standard tools plus `delete_memory` when it may delete,
/// and one that may not gets read-only tools. With a scope: the tools work
/// on both stores; a thread that may write the shared store gets the
/// scope-choosing note tool, and `delete_memory` may delete shared memories
/// only for such a thread. With `turn_scopes` the curating tools are
/// registered for everyone, and what the thread's settings do not allow is
/// left to the scopes of each turn (`memory.write_global`,
/// `memory.delete`).
pub fn memory_tool_plan(scope: &ScopedMemoriesConfig) -> (r: Option<ToolPlan>)
    ensures
        r == tool_plan_spec(scope.scope_key is Some, scope.may_write_global, scope.may_delete, scope.turn_scopes),
{
    let wg = scope.may_write_global;
    let ts = scope.turn_scopes;
    let md = scope.may_delete;
    let global = if wg {
        Permission::Fixed(true)
    } else if ts {
        Permission::Scope(WRITE_GLOBAL_SCOPE)
    } else {
        Permission::Fixed(false)
    };
    let delete = DeleteTool {
        permission: if md { Permission::Fixed(true) } else { Permission::Scope(DELETE_SCOPE) },
        global,
    };
    if scope.scope_key.is_none() {
        if wg && !md && !ts {
            None
        } else {
            Some(
                ToolPlan {
                    backend: ToolBackend::Global,
                    ad_hoc: if wg || ts {
                        AdHocTool::Plain { permission: global }
                    } else {
                        AdHocTool::Omitted
                    },
                    delete: if (wg || ts) && (md || ts) {
                        Some(delete)
                    } else {
                        None
                    },
                },
            )
        }
    } else {
        Some(
            ToolPlan {
                backend: ToolBackend::Scoped,
                ad_hoc: if wg || ts {
                    AdHocTool::ScopeChoosing { global }
                } else {
                    AdHocTool::Plain { permission: Permission::Fixed(true) }
                },
                delete: if md || ts {
                    Some(delete)
                } else {
                    None
                },
            },
        )
    }
}

/// A thread that may not write the shared store, and whose turns do not
/// decide it, gets no tool that writes or deletes there: no note tool that
/// reaches the shared store, and no `delete_memory` that reaches shared
/// memories.
pub proof fn lemma_read_only_threads_cannot_curate_shared(has_key: bool, may_delete: bool)
    ensures
        tool_plan_spec(has_key, false, may_delete, false) matches Some(p) ==> !(p.ad_hoc is ScopeChoosing)
            && (p.delete matches Some(d) ==> d.global == Permission::Fixed(false)),
        !has_key ==> (tool_plan_spec(has_key, false, may_delete, false) matches Some(p) && p.ad_hoc is Omitted
            && p.delete is None),
{
}

/// With `turn_scopes` the curating tools are registered whoever speaks, and
/// what the thread's own settings do not grant is decided by the turn:
/// shared notes and shared deletions need `memory.write_global`, and
/// deleting needs `memory.delete`.
pub proof fn lemma_turn_scopes_decide_curation(has_key: bool, may_write_global: bool, may_delete: bool)
    ensures
        tool_plan_spec(has_key, may_write_global, may_delete, true) matches Some(p) && (p.delete matches Some(d)
            && d.permission == (if may_delete { Permission::Fixed(true) } else { Permission::Scope(DELETE_SCOPE) })
            && d.global == (if may_write_global { Permission::Fixed(true) } else { Permission::Scope(WRITE_GLOBAL_SCOPE) })),
        has_key ==> (tool_plan_spec(has_key, may_write_global, may_delete, true) matches Some(p)
            && p.ad_hoc == AdHocTool::ScopeChoosing {
                global: if may_write_global { Permission::Fixed(true) } else { Permission::Scope(WRITE_GLOBAL_SCOPE) },
            }),
{
}

/// The description of `delete_memory`: it says when only this chat's own
/// memories can be deleted.
pub fn delete_tool_description(may_delete_global: bool) -> (r: String)
    ensures
        r@ == DELETE_TOOL_DESCRIPTION@ + (if may_delete_global {
            seq![]
        } else {
            DELETE_LOCAL_ONLY_DESCRIPTION@
        }),
{
    let mut r = String::new();
    push_str(&mut r, DELETE_TOOL_DESCRIPTION);
    if !may_delete_global {
        push_str(&mut r, DELETE_LOCAL_ONLY_DESCRIPTION);
    }
    assert(r@ =~= DELETE_TOOL_DESCRIPTION@ + (if may_delete_global {
        seq![]
    } else {
        DELETE_LOCAL_ONLY_DESCRIPTION@
    }));
    r
}

} // verus!
