use codex_astrbot::engine::client_originator;
use codex_astrbot::code_mode_catalog::deferred_code_mode_tools;
use codex_astrbot::code_mode_catalog::RegistryEntry;
use codex_astrbot::code_mode_catalog::SpecDescription;
use codex_astrbot::context_store::AdditionalContextKind;
use codex_astrbot::engine::default_turn_mode;
use codex_astrbot::engine::DeviceLogins;
use codex_astrbot::engine::into_context_entries;
use codex_astrbot::engine::listed_models;
use codex_astrbot::engine::login_id;
use codex_astrbot::engine::login_status;
use codex_astrbot::engine::normalize_api_key;
use codex_astrbot::engine::starts_memories;
use codex_astrbot::engine::submission_reply;
use codex_astrbot::engine::submit_plan;
use codex_astrbot::engine::thread_cwd;
use codex_astrbot::engine::ContextEntry;
use codex_astrbot::engine::EngineError;
use codex_astrbot::engine::LoginState;
use codex_astrbot::engine::ReviewDecision;
use codex_astrbot::engine::ReviewOp;
use codex_astrbot::engine::ReviewRequest;
use codex_astrbot::engine::SubmitPlan;
use codex_astrbot::engine::TurnInputSubmission;
use codex_astrbot::engine::TurnMode;
use codex_astrbot::image_artifact::image_generation_artifact_path;
use codex_astrbot::image_artifact::image_generation_output_hint;
use codex_astrbot::image_artifact::sanitize;
use codex_astrbot::image_artifact::tool_result_hint;
use codex_astrbot::realtime::include_startup_context;
use codex_astrbot::realtime::parse_text_role;
use codex_astrbot::realtime::ConversationStartTransport;
use codex_astrbot::realtime::ConversationTextRole;
use codex_astrbot::realtime::RealtimeTransport;
use codex_astrbot::scoped_prompt::delete_tool_description;
use codex_astrbot::scoped_prompt::instructions_plan;
use codex_astrbot::scoped_prompt::memory_tool_plan;
use codex_astrbot::scoped_prompt::needs_private_root_instructions;
use codex_astrbot::scoped_prompt::scoped_instructions;
use codex_astrbot::scoped_prompt::standard_with_note;
use codex_astrbot::scoped_prompt::InstructionsPlan;
use codex_astrbot::scoped_prompt::ScopeRoots;
use codex_astrbot::scoped_prompt::ScopedMemoriesConfig;
use codex_astrbot::scoped_prompt::ToolBackend;
use codex_astrbot::scoped_prompt::ToolPlan;
use codex_astrbot::scoped_prompt::AdHocTool;
use codex_astrbot::scoped_prompt::DeleteTool;
use codex_astrbot::scoped::check_note;
use codex_astrbot::scoped::check_turn_delete;
use codex_astrbot::scoped::NoteScope;
use codex_astrbot::scoped::Permission;
use codex_astrbot::scoped::Store;

#[test]
fn text_roles() {
    assert_eq!(
        ["user", "developer", "assistant"].map(|role| parse_text_role(role).expect("known role")),
        [
            ConversationTextRole::User,
            ConversationTextRole::Developer,
            ConversationTextRole::Assistant,
        ],
    );
    assert!(parse_text_role("system").is_err());
}

#[test]
fn webrtc_request_uses_app_server_defaults() {
    let transport = RealtimeTransport::Webrtc { sdp: "v=0".to_string() };
    assert!(include_startup_context(None, Some(&transport)));
    assert_eq!(
        transport.into_start_transport(),
        ConversationStartTransport::Webrtc { sdp: "v=0".to_string() }
    );
}

#[test]
fn empty_request_keeps_configured_transport() {
    assert!(include_startup_context(None, None));
}

#[test]
fn existing_call_skips_startup_context_by_default() {
    let existing = RealtimeTransport::ExistingCall { call_id: "call_1".to_string() };
    assert!(!include_startup_context(None, Some(&existing)));
    assert!(include_startup_context(Some(true), Some(&existing)));
    assert!(include_startup_context(None, None));
    assert!(include_startup_context(None, Some(&RealtimeTransport::Websocket)));
    assert!(!include_startup_context(Some(false), None));
    assert_eq!(
        existing.into_start_transport(),
        ConversationStartTransport::ExistingCall { call_id: "call_1".to_string(), sideband_base_url: None }
    );
}

#[test]
fn turn_requests_become_submissions() {
    assert_eq!(default_turn_mode(), TurnMode::StartOrSteer);
    assert_eq!(submit_plan(TurnMode::StartIfIdle, None), Ok(SubmitPlan::StartIfIdle));
    assert_eq!(submit_plan(TurnMode::Steer, None), Err(EngineError::SteerWithoutTurnId));
    assert_eq!(
        submit_plan(TurnMode::Steer, Some("t1".to_string())),
        Ok(SubmitPlan::Steer { expected_turn_id: "t1".to_string() })
    );
    let started = TurnInputSubmission::Started { turn_id: "t2".to_string() };
    assert_eq!(submission_reply(&started), ("started", "t2".to_string()));
    assert!(starts_memories(&started));
    let skipped = TurnInputSubmission::NotSubmitted { reason: "Busy".to_string() };
    assert_eq!(submission_reply(&skipped), ("not_submitted", "Busy".to_string()));
    assert!(!starts_memories(&skipped));

    let entries = into_context_entries(vec![
        ("a".to_string(), ContextEntry { value: "x".to_string(), kind: Some("untrusted".to_string()) }),
        ("b".to_string(), ContextEntry { value: "y".to_string(), kind: None }),
        ("c".to_string(), ContextEntry { value: "z".to_string(), kind: Some("other".to_string()) }),
    ]);
    assert_eq!(
        entries.iter().map(|(k, e)| (k.as_str(), e.kind)).collect::<Vec<_>>(),
        vec![
            ("a", AdditionalContextKind::Untrusted),
            ("b", AdditionalContextKind::Application),
            ("c", AdditionalContextKind::Application),
        ]
    );
    assert_eq!(thread_cwd(None, "/home/codex"), "/home/codex");
    assert_eq!(thread_cwd(Some("/w".to_string()), "/home/codex"), "/w");
}

#[test]
fn review_answers_become_operations() {
    let request = |kind: &str, approved: bool, reason: Option<&str>| ReviewRequest {
        kind: kind.to_string(),
        id: "r1".to_string(),
        turn_id: Some("t1".to_string()),
        approved,
        reason: reason.map(str::to_string),
    };
    assert_eq!(
        request("exec", true, None).into_op(),
        Ok(ReviewOp::ExecApproval {
            id: "r1".to_string(),
            turn_id: Some("t1".to_string()),
            decision: ReviewDecision::Approved,
        })
    );
    assert_eq!(
        request("patch", false, None).into_op(),
        Ok(ReviewOp::PatchApproval {
            id: "r1".to_string(),
            decision: ReviewDecision::Denied { reason: "denied".to_string() },
        })
    );
    assert_eq!(
        request("other", false, Some("no")).into_op(),
        Err(EngineError::UnknownApprovalKind { kind: "other".to_string() })
    );
}

#[test]
fn accounts_report_and_name_logins() {
    assert_eq!(normalize_api_key("  sk-1 \n"), Ok("sk-1".to_string()));
    assert_eq!(normalize_api_key(" \t "), Err(EngineError::EmptyApiKey));
    assert_eq!(login_status(None), ("unknown", None));
    assert_eq!(login_status(Some(&LoginState::Pending)), ("pending", None));
    assert_eq!(
        login_status(Some(&LoginState::Failed { error: "expired".to_string() })),
        ("failed", Some("expired".to_string()))
    );
    assert_eq!(login_id(0), "login-0");
    assert_eq!(login_id(0x1a2b), "login-1a2b");
    assert_eq!(listed_models(&vec![true, false, true], false), vec![0, 2]);
    assert_eq!(listed_models(&vec![true, false], true), vec![0, 1]);
}

#[test]
fn one_device_login_runs_at_a_time() {
    let mut logins = DeviceLogins::new();
    assert_eq!(logins.status("login-1"), ("unknown", None));
    assert!(logins.start("login-1".to_string()).is_empty());
    assert_eq!(logins.status("login-1"), ("pending", None));
    assert_eq!(logins.start("login-2".to_string()), vec!["login-1".to_string()]);
    assert_eq!(logins.status("login-1"), ("unknown", None));
    logins.finish("login-1", LoginState::Success);
    assert_eq!(logins.status("login-1"), ("unknown", None));
    logins.finish("login-2", LoginState::Failed { error: "expired".to_string() });
    assert_eq!(logins.status("login-2"), ("failed", Some("expired".to_string())));
    assert!(!logins.cancel("login-1"));
    assert!(logins.cancel("login-2"));
    assert_eq!(logins.status("login-2"), ("unknown", None));
    assert!(!logins.cancel("login-2"));
}

#[test]
fn generated_images_are_saved_under_safe_names() {
    assert_eq!(sanitize("thread-1"), "thread-1");
    assert_eq!(sanitize("../a b"), "___a_b");
    assert_eq!(sanitize(""), "generated_image");
    assert_eq!(
        image_generation_artifact_path("s/1", "call-1"),
        vec!["generated_images".to_string(), "s_1".to_string(), "call-1.png".to_string()]
    );
    let hint = image_generation_output_hint("/home/g", "/home/g/a.png").expect("short hint");
    assert!(hint.starts_with("The image was generated and saved on the host as /home/g/a.png (in /home/g)"));
    assert!(hint.contains("It has NOT been shown to the user."));
    assert_eq!(image_generation_output_hint("/d", &"p".repeat(1024)), None);
}

fn entry(global: &str, spec: SpecDescription, prefix: Option<&str>) -> RegistryEntry {
    RegistryEntry {
        deferred: true,
        namespace: prefix.map(|_| "astrbot".to_string()),
        spec,
        nested: true,
        global_name: global.to_string(),
        group_prefix: prefix.map(str::to_string),
    }
}

#[test]
fn deferred_tools_are_listed_once_by_their_code_mode_names() {
    let plain = |d: &str| SpecDescription::Plain { description: d.to_string() };
    let nested = |d: &str| SpecDescription::Namespaced {
        tool: Some(d.to_string()),
        group: "AstrBot plugin tools.".to_string(),
    };
    let mut hidden = entry("hidden__secret", nested("Not callable."), Some("hidden__"));
    hidden.namespace = Some("hidden".to_string());
    let mut direct = entry("astrbot__always_there", nested("Listed in exec."), Some("astrbot__"));
    direct.deferred = false;
    let entries = vec![
        entry("astrbot__web_search", nested("Search the web."), Some("astrbot__")),
        entry("astrbot__send_file", nested("Send a file."), Some("astrbot__")),
        direct,
        hidden,
        entry("lookup", plain("Look it up."), None),
        entry("lookup", plain("Shadowed."), None),
        entry("astrbot__", nested("Only the prefix."), Some("astrbot__")),
        entry("web", SpecDescription::Unlisted, None),
    ];
    let tools = deferred_code_mode_tools(&entries, &vec!["hidden".to_string()]);
    assert_eq!(
        tools
            .iter()
            .map(|t| (t.global_name.as_str(), t.group.as_str(), t.description.as_str()))
            .collect::<Vec<_>>(),
        vec![
            ("astrbot__web_search", "astrbot__", "Search the web."),
            ("astrbot__send_file", "astrbot__", "Send a file."),
            ("lookup", "", "Look it up."),
            ("astrbot__", "", "Only the prefix."),
        ]
    );
    assert_eq!(tools[0].group_description, "AstrBot plugin tools.");
}

fn config(scope_key: Option<&str>, may_write_global: bool, may_delete: bool) -> ScopedMemoriesConfig {
    ScopedMemoriesConfig {
        scope_key: scope_key.map(str::to_string),
        may_write_global,
        may_delete,
        turn_scopes: false,
    }
}

#[test]
fn memory_instructions_and_tools_follow_the_scope_settings() {
    assert_eq!(instructions_plan(None, true), InstructionsPlan::Standard);
    assert_eq!(instructions_plan(Some(&config(Some("c"), true, true)), true), InstructionsPlan::Scoped);
    assert_eq!(
        instructions_plan(Some(&config(None, false, true)), true),
        InstructionsPlan::StandardReadOnly
    );
    assert_eq!(
        instructions_plan(Some(&config(None, true, true)), true),
        InstructionsPlan::StandardWithDelete
    );
    assert_eq!(instructions_plan(Some(&config(None, true, true)), false), InstructionsPlan::Standard);
    let read_only = standard_with_note(InstructionsPlan::StandardReadOnly, Some("up".to_string()))
        .expect("standard text");
    assert!(read_only.starts_with("up\n\n## Shared memory is read-only in this chat"));
    assert_eq!(standard_with_note(InstructionsPlan::StandardWithDelete, None), None);

    assert_eq!(memory_tool_plan(&config(None, true, false)), None);
    assert_eq!(
        memory_tool_plan(&config(None, false, true)),
        Some(ToolPlan { backend: ToolBackend::Global, ad_hoc: AdHocTool::Omitted, delete: None })
    );
    assert_eq!(
        memory_tool_plan(&config(Some("c"), false, true)),
        Some(ToolPlan {
            backend: ToolBackend::Scoped,
            ad_hoc: AdHocTool::Plain { permission: Permission::Fixed(true) },
            delete: Some(DeleteTool { permission: Permission::Fixed(true), global: Permission::Fixed(false) }),
        })
    );
    assert!(delete_tool_description(false).ends_with("must be left alone."));
    assert!(!delete_tool_description(true).contains("local/"));
}

#[test]
fn scoped_prompt_merges_global_and_own_scope_only() {
    let roots = ScopeRoots {
        local_root: "/h/memories_scopes/chat-1".to_string(),
        shared_root: "/h/memories".to_string(),
    };
    assert!(needs_private_root_instructions(false, true));
    assert!(!needs_private_root_instructions(true, true));
    let text = scoped_instructions(
        Some("summary: shared fact".to_string()),
        Some("summary: alice likes tea".to_string()),
        None,
        &roots,
        &config(Some("chat-1"), false, false),
        true,
    )
    .expect("instructions");
    assert!(text.starts_with("summary: shared fact"));
    assert!(text.contains("summary: alice likes tea"));
    assert!(!text.contains("bob secret"));
    assert!(text.contains("this chat cannot write shared memories"));
    assert!(text.contains("- This chat may not write to the shared folder at all.\n"));
    assert!(text.contains("/h/memories_scopes/chat-1/extensions/ad_hoc/notes/, never"));
    assert_eq!(scoped_instructions(None, None, None, &roots, &config(Some("c"), true, true), true), None);
    let private_only = scoped_instructions(
        None,
        Some("s".to_string()),
        Some("root text".to_string()),
        &roots,
        &config(Some("c"), true, true),
        false,
    )
    .expect("private instructions");
    assert!(private_only.contains("The SHARED memory folder at /h/memories is visible to every other chat."));
    assert!(!private_only.contains("`memories` tools"));
}

#[test]
fn a_host_hint_replaces_the_built_in_note() {
    assert_eq!(
        tool_result_hint(Some("copied to generated_images/call-1.png".to_string()), Some("built-in".to_string())),
        Some("copied to generated_images/call-1.png".to_string())
    );
    assert_eq!(tool_result_hint(None, Some("built-in".to_string())), Some("built-in".to_string()));
    assert_eq!(tool_result_hint(None, None), None);
}

fn granted(scopes: &[&str]) -> Vec<String> {
    scopes.iter().map(|s| s.to_string()).collect()
}

#[test]
fn turn_scopes_decide_what_the_current_sender_may_curate() {
    let config = ScopedMemoriesConfig {
        scope_key: Some("chat-1".to_string()),
        // Consolidation stays private; each turn's scopes decide the rest.
        may_write_global: false,
        may_delete: false,
        turn_scopes: true,
    };
    let plan = memory_tool_plan(&config).expect("tools");
    // Registered for everyone: the tool set is the same whoever speaks.
    let delete = plan.delete.expect("delete tool");
    let global = match plan.ad_hoc {
        AdHocTool::ScopeChoosing { global } => global,
        other => panic!("{other:?}"),
    };

    // A turn without scopes: private notes only, nothing deleted.
    assert_eq!(check_note(&global, NoteScope::Local, &granted(&[])), Ok(Store::Local));
    let refused = check_note(&global, NoteScope::Global, &granted(&[])).expect_err("shared note refused");
    assert!(format!("{refused:?}").contains("may not write shared memories"), "{refused:?}");
    assert!(check_turn_delete(&delete.permission, &delete.global, false, "local/notes/a.md", &granted(&[])).is_err());

    // Deleting needs its own scope; shared memories also need write_global.
    assert!(
        check_turn_delete(&delete.permission, &delete.global, false, "global/notes/a.md", &granted(&["memory.delete"]))
            .is_err()
    );
    assert_eq!(
        check_turn_delete(&delete.permission, &delete.global, false, "local/notes/a.md", &granted(&["memory.delete"])),
        Ok(())
    );

    // A sender granted both, in a group or not, curates the shared store.
    let all = granted(&["memory.write_global", "memory.delete"]);
    assert_eq!(check_note(&global, NoteScope::Global, &all), Ok(Store::Global));
    assert_eq!(check_turn_delete(&delete.permission, &delete.global, false, "global/notes/a.md", &all), Ok(()));

    let roots = ScopeRoots {
        local_root: "/h/memories_scopes/chat-1".to_string(),
        shared_root: "/h/memories".to_string(),
    };
    let text = scoped_instructions(Some("shared".to_string()), None, None, &roots, &config, true)
        .expect("instructions");
    assert!(text.contains("message metadata says they may manage shared memories"));
    assert!(!text.contains("may not write to the shared folder at all"));
}

#[test]
fn without_a_scope_turn_scopes_gate_the_single_store() {
    let mut unscoped = config(None, false, false);
    unscoped.turn_scopes = true;
    let plan = memory_tool_plan(&unscoped).expect("tools");
    assert_eq!(plan.ad_hoc, AdHocTool::Plain { permission: Permission::Scope("memory.write_global") });
    let delete = plan.delete.expect("delete tool");
    assert!(check_turn_delete(&delete.permission, &delete.global, true, "notes/a.md", &granted(&["memory.delete"])).is_err());
    assert_eq!(
        check_turn_delete(&delete.permission, &delete.global, true, "notes/a.md", &granted(&["memory.delete", "memory.write_global"])),
        Ok(())
    );
    assert_eq!(instructions_plan(Some(&unscoped), true), InstructionsPlan::StandardWithDelete);
}

#[test]
fn the_host_may_send_another_client_identity() {
    assert_eq!(client_originator(None), "astrbot");
    assert_eq!(client_originator(Some("codex-tui")), "codex-tui");
}

#[test]
fn notes_go_under_the_scope_root_and_errors_read_as_before() {
    assert_eq!(
        codex_astrbot::scoped_prompt::local_notes_dir("/h/memories_scopes/chat-1"),
        "/h/memories_scopes/chat-1/extensions/ad_hoc/notes"
    );
    assert_eq!(
        EngineError::UnknownApprovalKind { kind: "other".to_string() }.message(),
        "unknown approval kind: other"
    );
    assert_eq!(EngineError::SteerWithoutTurnId.message(), "steer requires expected_turn_id");
    assert_eq!(EngineError::EmptyApiKey.message(), "api key is empty");
    assert_eq!(EngineError::UnknownThread { thread_id: "t1".to_string() }.message(), "unknown thread t1");
}
