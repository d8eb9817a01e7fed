use codex_astrbot::scopes::append_maintenance_tools_note;
use codex_astrbot::scopes::visibility_schema_field;
use codex_astrbot::scopes::pipeline_next;
use codex_astrbot::scopes::PipelineAction;
use codex_astrbot::scopes::PipelineEvent;
use codex_astrbot::scopes::agent_config_adjustments;
use codex_astrbot::maintenance::MaintenanceBackend;
use codex_astrbot::memory_scopes::memory_scope_dir_name;
use codex_astrbot::memory_scopes::memory_scope_partition;
use codex_astrbot::scoped::absorb_search;
use codex_astrbot::scoped::addresses_global_store;
use codex_astrbot::scoped::check_delete;
use codex_astrbot::scoped::file_target;
use codex_astrbot::scoped::finish_search_both;
use codex_astrbot::scoped::prefix_entries;
use codex_astrbot::scoped::prefix_error;
use codex_astrbot::scoped::prefixed;
use codex_astrbot::scoped::root_entries;
use codex_astrbot::scoped::route;
use codex_astrbot::scoped::start_search_both;
use codex_astrbot::scoped::MemoriesBackendError;
use codex_astrbot::scoped::MemoryEntry;
use codex_astrbot::scoped::MemoryEntryType;
use codex_astrbot::scoped::NoteScope;
use codex_astrbot::scoped::Permission;
use codex_astrbot::scoped::Route;
use codex_astrbot::scoped::ScopedMemoriesBackend;
use codex_astrbot::scoped::SearchMatch;
use codex_astrbot::scoped::SearchMatchMode;
use codex_astrbot::scoped::SearchMemoriesResponse;
use codex_astrbot::scoped::Store;
use codex_astrbot::scoped::DELETE_SCOPE;
use codex_astrbot::scoped::WRITE_GLOBAL_SCOPE;
use codex_astrbot::scopes::add_classification_instructions;
use codex_astrbot::scopes::consolidation_addendum;
use codex_astrbot::scopes::consolidation_runs;
use codex_astrbot::scopes::fork_mode_active;
use codex_astrbot::scopes::partitions_to_enqueue;
use codex_astrbot::scopes::registers_scope;
use codex_astrbot::scopes::split_visibility;
use codex_astrbot::scopes::ConsolidationRefusal;
use codex_astrbot::scopes::MemoriesConfig;
use codex_astrbot::scopes::MemoryVersion;
use codex_astrbot::scopes::Phase2Target;
use codex_astrbot::scopes::PipelineRun;
use codex_astrbot::scopes::ThreadMemoryScope;
use codex_astrbot::scopes::ThreadRouting;
use codex_astrbot::scopes::Visibility;
use codex_astrbot::scopes::GLOBAL_CONSOLIDATION_ADDENDUM;
use codex_astrbot::scopes::SCOPE_CONSOLIDATION_ADDENDUM;
use codex_astrbot::scopes::VISIBILITY_FIELD;

#[test]
fn scope_dir_names_are_safe_and_distinct() {
    assert_eq!(memory_scope_dir_name("group-42_a"), "group-42_a");
    let odd = memory_scope_dir_name("../qq:123/..");
    assert!(odd.starts_with("___qq_123___-"));
    assert!(!odd.contains('/') && !odd.contains('.'));
    assert_ne!(memory_scope_dir_name("a:b"), memory_scope_dir_name("a/b"));
    assert_ne!(memory_scope_dir_name("a_b"), memory_scope_dir_name("a:b"));
    // A verbatim key cannot impersonate the hashed directory of another key.
    let hashed = memory_scope_dir_name("a:b");
    assert_ne!(memory_scope_dir_name(&hashed), hashed);
    // Case-only differences stay distinct on case-insensitive filesystems.
    assert_ne!(
        memory_scope_dir_name("Chat").to_ascii_lowercase(),
        memory_scope_dir_name("chat").to_ascii_lowercase()
    );
    assert_ne!(memory_scope_dir_name("con"), "con");
    assert_ne!(memory_scope_dir_name("com1"), "com1");
    assert_eq!(memory_scope_partition("chat"), "scope:chat");
}

fn scoped(classify: bool) -> ThreadRouting {
    ThreadRouting::Scoped {
        scope_key: "chat-1".to_string(),
        classify,
    }
}

#[test]
fn routing_follows_registered_scope() {
    assert_eq!(ThreadRouting::from_scope(None), ThreadRouting::Upstream);
    assert_eq!(
        ThreadRouting::from_scope(Some(ThreadMemoryScope {
            scope_key: None,
            may_write_global: false,
        })),
        ThreadRouting::Drop
    );
    assert_eq!(
        ThreadRouting::from_scope(Some(ThreadMemoryScope {
            scope_key: Some("chat-1".to_string()),
            may_write_global: true,
        })),
        scoped(true)
    );
    assert_eq!(
        ThreadRouting::from_scope(Some(ThreadMemoryScope {
            scope_key: Some("chat-1".to_string()),
            may_write_global: false,
        })),
        scoped(false)
    );
}

#[test]
fn partition_is_global_only_for_explicit_global_verdict_of_global_writer() {
    assert_eq!(ThreadRouting::Upstream.partition(None), None);
    assert_eq!(
        scoped(true).partition(Some(Visibility::Global)),
        Some("global".to_string())
    );
    assert_eq!(
        scoped(true).partition(Some(Visibility::Private)),
        Some("scope:chat-1".to_string())
    );
    assert_eq!(scoped(true).partition(None), Some("scope:chat-1".to_string()));
    // A thread that may not write globally never reaches the global store.
    assert_eq!(
        scoped(false).partition(Some(Visibility::Global)),
        Some("scope:chat-1".to_string())
    );
    assert!(scoped(true).classify());
    assert!(!scoped(false).classify());
    assert!(!ThreadRouting::Drop.classify());
}

#[test]
fn split_visibility_defaults_to_private_and_strips_the_field() {
    let (rest, visibility) = split_visibility(
        r#"{"rollout_summary":"s","rollout_slug":null,"raw_memory":"r","memory_visibility":"global"}"#,
    );
    assert_eq!(visibility, Visibility::Global);
    let parsed: serde_json::Value = serde_json::from_str(&rest).expect("json");
    assert_eq!(parsed.get(VISIBILITY_FIELD), None);
    assert_eq!(parsed.get("raw_memory").and_then(|v| v.as_str()), Some("r"));

    for source in [
        r#"{"rollout_summary":"s","rollout_slug":null,"raw_memory":"r"}"#,
        r#"{"rollout_summary":"s","rollout_slug":null,"raw_memory":"r","memory_visibility":"public"}"#,
        r#"{"rollout_summary":"s","rollout_slug":null,"raw_memory":"r","memory_visibility":true}"#,
        "not json",
    ] {
        assert_eq!(split_visibility(source).1, Visibility::Private, "{source}");
    }
    assert_eq!(split_visibility("not json").0, "not json");
}

#[test]
fn classification_extends_the_instructions() {
    let mut instructions = String::from("base");
    add_classification_instructions(&mut instructions);
    assert!(instructions.starts_with("base"));
    assert!(instructions.contains("When in doubt, choose \"private\""));
}

#[test]
fn fork_mode_is_off_by_default() {
    assert!(!fork_mode_active(&MemoriesConfig::defaults()));
    let scoped = MemoriesConfig {
        scope_key: Some("chat".to_string()),
        ..MemoriesConfig::defaults()
    };
    assert!(fork_mode_active(&scoped));
    let manual = MemoriesConfig {
        auto_consolidate: false,
        ..MemoriesConfig::defaults()
    };
    assert!(fork_mode_active(&manual));
    assert!(!registers_scope(&manual));
    assert!(registers_scope(&scoped));
}

#[test]
fn thread_scope_upsert_accumulates_may_write_global() {
    let first = ThreadMemoryScope::upserted(None, Some("chat".to_string()), false);
    let second = ThreadMemoryScope::upserted(Some(first), None, true);
    let third = ThreadMemoryScope::upserted(Some(second), Some("other-chat".to_string()), true);
    assert_eq!(
        third,
        ThreadMemoryScope {
            scope_key: Some("chat".to_string()),
            may_write_global: false,
        }
    );
}

#[test]
fn consolidation_targets_and_prompts() {
    let global = Phase2Target::global(true);
    assert_eq!(global.partition, "global");
    assert!(!global.scoped && global.skip_cooldown);
    let scope = Phase2Target::scope("chat-1", false);
    assert_eq!(scope.partition, "scope:chat-1");
    assert!(scope.scoped);
    assert_eq!(consolidation_addendum(&scope, Some(false)), Some(SCOPE_CONSOLIDATION_ADDENDUM));
    assert_eq!(consolidation_addendum(&global, Some(false)), None);
    assert_eq!(consolidation_addendum(&global, Some(true)), Some(GLOBAL_CONSOLIDATION_ADDENDUM));
    assert_eq!(consolidation_addendum(&global, None), Some(GLOBAL_CONSOLIDATION_ADDENDUM));
}

#[test]
fn moved_outputs_requeue_both_partitions() {
    assert_eq!(partitions_to_enqueue("global", None), vec!["global".to_string()]);
    assert_eq!(partitions_to_enqueue("global", Some("global")), vec!["global".to_string()]);
    assert_eq!(
        partitions_to_enqueue("scope:chat", Some("global")),
        vec!["scope:chat".to_string(), "global".to_string()]
    );
}

#[test]
fn consolidation_runs_once_per_store_version() {
    assert_eq!(
        consolidation_runs(true, true, false, MemoryVersion::V1, false),
        Err(ConsolidationRefusal::MemoriesDisabled)
    );
    assert_eq!(
        consolidation_runs(false, false, false, MemoryVersion::V1, false),
        Err(ConsolidationRefusal::MemoriesDisabled)
    );
    assert_eq!(
        consolidation_runs(false, true, true, MemoryVersion::V1, true),
        Ok(vec![
            PipelineRun { version: MemoryVersion::V1, no_idle_wait: true },
            PipelineRun { version: MemoryVersion::V2, no_idle_wait: true },
        ])
    );
    assert_eq!(
        consolidation_runs(false, true, false, MemoryVersion::V2, false),
        Ok(vec![PipelineRun { version: MemoryVersion::V2, no_idle_wait: false }])
    );
}

#[test]
fn routes_paths_to_the_two_stores() {
    assert_eq!(route(None), Ok(Route::Root));
    assert_eq!(route(Some("./")), Ok(Route::Root));
    assert_eq!(route(Some(".")), Ok(Route::Root));
    assert_eq!(route(Some("global")), Ok(Route::Global(None)));
    assert_eq!(route(Some("./local/")), Ok(Route::Local(None)));
    assert_eq!(
        route(Some("local/MEMORY.md")),
        Ok(Route::Local(Some("MEMORY.md".to_string())))
    );
    assert_eq!(
        route(Some("global\\notes\\a.md")),
        Ok(Route::Global(Some("notes\\a.md".to_string())))
    );
    assert_eq!(
        route(Some("local//etc/passwd")),
        Ok(Route::Local(Some("/etc/passwd".to_string())))
    );
    for path in ["MEMORY.md", "Local/MEMORY.md", "/etc/passwd", "../x.md"] {
        assert_eq!(
            route(Some(path)),
            Err(MemoriesBackendError::InvalidPath {
                path: path.to_string(),
                reason: "must start with `global/` (shared memories) or `local/` (this chat's memories)".to_string(),
            })
        );
    }
    assert!(addresses_global_store("global/a.md"));
    assert!(!addresses_global_store("local/a.md"));
    assert!(!addresses_global_store("nonsense"));
}

#[test]
fn listed_paths_route_back_to_their_store() {
    for path in ["MEMORY.md", "notes\\a.md", ""] {
        let shown = prefixed("local", path);
        let expected = if path.is_empty() {
            Route::Local(None)
        } else {
            Route::Local(Some(path.replace('\\', "/")))
        };
        assert_eq!(route(Some(&shown)), Ok(expected));
    }
    assert_eq!(prefixed("global", "a\\b.md"), "global/a/b.md");
    assert_eq!(prefixed("global", ""), "global");
}

#[test]
fn files_must_name_a_store_and_a_path() {
    assert_eq!(file_target("global"), Err(MemoriesBackendError::NotFile { path: "global".to_string() }));
    assert_eq!(file_target("local/a.md"), Ok(("local", Store::Local, "a.md".to_string())));
    assert!(matches!(file_target("x.md"), Err(MemoriesBackendError::InvalidPath { .. })));
    let backend = ScopedMemoriesBackend { global_root: "/g".to_string(), local_root: "/l".to_string() };
    assert_eq!(backend.root(Store::Global), "/g");
    assert_eq!(backend.pick(&Route::Root), None);
    assert_eq!(
        backend.pick(&Route::Local(Some("a".to_string()))),
        Some(("local", Store::Local, Some("a".to_string())))
    );
}

#[test]
fn store_errors_are_shown_under_the_prefix() {
    assert_eq!(
        prefix_error("local", MemoriesBackendError::NotFound { path: "a\\b.md".to_string() }),
        MemoriesBackendError::NotFound { path: "local/a/b.md".to_string() }
    );
    let other = MemoriesBackendError::Other { message: "io".to_string() };
    assert_eq!(prefix_error("global", other.clone()), other);
}

#[test]
fn shared_memories_are_protected_from_deletion() {
    assert_eq!(check_delete(true, "global/a.md"), Ok(()));
    assert_eq!(check_delete(false, "local/a.md"), Ok(()));
    assert_eq!(
        check_delete(false, "global/a.md"),
        Err(MemoriesBackendError::InvalidPath {
            path: "global/a.md".to_string(),
            reason: "is a shared memory; this chat may only delete its own `local/` memories".to_string(),
        })
    );
}

#[test]
fn turn_scopes_decide_what_the_sender_may_do() {
    let scopes = vec![DELETE_SCOPE.to_string()];
    assert!(Permission::Scope(DELETE_SCOPE).allowed(&scopes));
    assert!(!Permission::Scope(WRITE_GLOBAL_SCOPE).allowed(&scopes));
    assert!(Permission::Fixed(true).allowed(&Vec::new()));
    assert!(!Permission::Fixed(false).allowed(&scopes));
    assert_eq!(NoteScope::unspecified().store(), Store::Local);
    assert_eq!(NoteScope::Global.store(), Store::Global);
}

fn response(paths: &[&str], truncated: bool) -> SearchMemoriesResponse {
    SearchMemoriesResponse {
        queries: vec!["e".to_string()],
        match_mode: SearchMatchMode::Any,
        path: None,
        matches: paths
            .iter()
            .map(|path| SearchMatch { path: path.to_string(), content: format!("in {path}") })
            .collect(),
        next_cursor: None,
        truncated,
    }
}

#[test]
fn searching_both_stores_merges_their_hits() {
    assert!(matches!(
        start_search_both(Some("c1")),
        Err(MemoriesBackendError::InvalidCursor { .. })
    ));
    let acc = start_search_both(None).expect("starts");
    let acc = absorb_search(acc, "global", Ok(response(&["a.md"], false))).expect("global");
    let acc = absorb_search(
        acc,
        "local",
        Err(MemoriesBackendError::NotFound { path: "".to_string() }),
    )
    .expect("a missing scope adds nothing");
    let acc = absorb_search(acc, "local", Ok(response(&["b.md", "c.md"], false))).expect("local");
    let merged = finish_search_both(acc, vec!["q".to_string()], SearchMatchMode::All, 2);
    assert_eq!(
        merged.matches.iter().map(|m| m.path.as_str()).collect::<Vec<_>>(),
        vec!["global/a.md", "local/b.md"]
    );
    assert!(merged.truncated);
    assert_eq!(merged.queries, vec!["e".to_string()]);
    assert_eq!(merged.match_mode, SearchMatchMode::Any);

    let acc = start_search_both(None).expect("starts");
    let failed = absorb_search(
        acc,
        "global",
        Err(MemoriesBackendError::NotFile { path: "x".to_string() }),
    );
    assert!(matches!(failed, Err(MemoriesBackendError::NotFile { path }) if path == "global/x"));
}

#[test]
fn the_top_level_lists_the_two_stores() {
    let entries = root_entries();
    assert_eq!(
        entries.iter().map(|e| e.path.as_str()).collect::<Vec<_>>(),
        vec!["global", "local"]
    );
    let shown = prefix_entries(
        "local",
        vec![MemoryEntry { path: "MEMORY.md".to_string(), entry_type: MemoryEntryType::File }],
    );
    assert_eq!(shown[0].path, "local/MEMORY.md");
}

#[test]
fn maintenance_paths_are_made_relative_to_the_root() {
    let backend = MaintenanceBackend::new("/mem/root".to_string());
    assert_eq!(backend.relative("memory_summary.md"), "memory_summary.md");
    assert_eq!(backend.relative("/mem/root/memory_summary.md"), "memory_summary.md");
    assert_eq!(backend.relative("/mem/root//notes/./a.md"), "notes/a.md");
    assert_eq!(backend.relative("/elsewhere/a.md"), "/elsewhere/a.md");
}

#[test]
fn only_safe_short_keys_are_kept_verbatim() {
    assert_eq!(memory_scope_dir_name("chat-1_a"), "chat-1_a");
    for key in ["Chat", "a/b", "con", "x-0123456789abcdef"] {
        let name = memory_scope_dir_name(key);
        assert_ne!(name, key);
        assert_eq!(name.len(), key.chars().count().min(64) + 17);
        assert!(name.chars().all(|c| c.is_ascii_lowercase() || c.is_ascii_digit() || c == '-' || c == '_'));
    }
}

#[test]
fn a_consolidation_run_needs_a_store_and_rate_limits() {
    let refused = pipeline_next(PipelineEvent::StoreOpened(false));
    assert_eq!(refused, PipelineAction::Refuse(ConsolidationRefusal::StateDbUnavailable));
    assert_eq!(ConsolidationRefusal::StateDbUnavailable.message(), "state db unavailable for memories");
    assert_eq!(pipeline_next(PipelineEvent::StoreOpened(true)), PipelineAction::PrepareAndCheckRateLimits);
    assert_eq!(
        pipeline_next(PipelineEvent::RateLimitsChecked(false)),
        PipelineAction::Refuse(ConsolidationRefusal::RateLimitsTooLow)
    );
    assert_eq!(
        ConsolidationRefusal::RateLimitsTooLow.message(),
        "memory consolidation skipped: rate limits too low"
    );
    assert_eq!(pipeline_next(PipelineEvent::RateLimitsChecked(true)), PipelineAction::RunPhases);
}

fn chat_host_scope() -> MemoriesConfig {
    let mut scoped = MemoriesConfig::defaults();
    // A scope key is what puts the fork's memory routing in play.
    scoped.scope_key = Some("aiocqhttp:GroupMessage:12345".to_string());
    scoped
}

#[test]
fn consolidation_regains_file_editing_tools_in_fork_mode() {
    // With an executable there is a local execution environment to use.
    let adjusted = agent_config_adjustments(&chat_host_scope(), true).expect("fork mode");
    assert!(adjusted.leave_code_mode, "consolidation must call tools directly");
    assert!(adjusted.enable_shell_tool, "consolidation rewrites files and needs a shell");
    assert!(adjusted.include_environment_context, "with a shell the agent needs its platform");
    assert!(adjusted.clear_base_instructions && adjusted.clear_developer_instructions);
}

#[test]
fn upstream_threads_keep_the_inherited_tool_surface() {
    assert_eq!(agent_config_adjustments(&MemoriesConfig::defaults(), true), None);
    assert_eq!(agent_config_adjustments(&MemoriesConfig::defaults(), false), None);
}

#[test]
fn without_a_codex_executable_consolidation_gets_memory_file_tools() {
    let adjusted = agent_config_adjustments(&chat_host_scope(), false).expect("fork mode");
    assert!(adjusted.maintenance_tools, "the memories extension must serve the files instead");
    assert!(!adjusted.enable_shell_tool, "no shell tool without an environment");
    assert!(adjusted.leave_code_mode);
}

#[test]
fn a_codex_executable_keeps_the_shell_and_no_file_tools() {
    let adjusted = agent_config_adjustments(&chat_host_scope(), true).expect("fork mode");
    assert!(adjusted.enable_shell_tool);
    assert!(!adjusted.maintenance_tools);
}

#[test]
fn the_maintenance_note_is_appended_only_when_the_tools_are_on() {
    let mut off = "Consolidate the supplied rollout summaries".to_string();
    append_maintenance_tools_note(&mut off, false);
    assert!(!off.contains("memories.write"));
    let mut on = "Consolidate the supplied rollout summaries".to_string();
    append_maintenance_tools_note(&mut on, true);
    assert!(on.starts_with("Consolidate the supplied rollout summaries"));
    assert!(on.contains("memories.list"));
    assert!(on.contains("memories.read"));
    assert!(on.contains("memories.write"));
    assert!(on.contains("no shell"));
}

#[test]
fn classification_extends_schema_and_instructions() {
    let mut instructions = String::from("base");
    add_classification_instructions(&mut instructions);
    assert!(instructions.starts_with("base"));
    assert!(instructions.contains("When in doubt, choose \"private\""));
    let field = visibility_schema_field();
    assert_eq!(field.name, VISIBILITY_FIELD);
    assert_eq!(field.value_type, "string");
    assert_eq!(field.values, vec!["global", "private"]);
}

#[test]
fn a_run_now_of_a_thread_without_memories_is_refused_as_such() {
    assert_eq!(
        consolidation_runs(true, true, false, MemoryVersion::V1, false),
        Err(ConsolidationRefusal::MemoriesDisabled)
    );
    assert_eq!(
        consolidation_runs(false, false, true, MemoryVersion::V2, true),
        Err(ConsolidationRefusal::MemoriesDisabled)
    );
    assert_eq!(ConsolidationRefusal::MemoriesDisabled.message(), "memories are disabled for this thread");
}
