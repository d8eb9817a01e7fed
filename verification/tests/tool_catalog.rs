use codex_astrbot::catalog_render::CatalogFragment;
use codex_astrbot::catalog_render::PreviousSectionState;
use codex_astrbot::describe::short_description;
use codex_astrbot::tool_catalog::CatalogGroup;
use codex_astrbot::tool_catalog::CatalogTool;
use codex_astrbot::tool_catalog::ToolCatalogSnapshot;
use codex_astrbot::tool_catalog::ToolCatalogState;

fn tool(global_name: &str, group: &str, description: &str) -> CatalogTool {
    CatalogTool {
        global_name: global_name.to_string(),
        group: group.to_string(),
        description: description.to_string(),
        group_description: match group {
            "astrbot__" => "AstrBot tools for the current chat session.\nMore detail.",
            "astrbot__harness__" => "Plugin harness: test tools.",
            _ => "",
        }
        .to_string(),
    }
}

fn catalog(tools: Vec<CatalogTool>) -> ToolCatalogState {
    ToolCatalogState::new(tools, None)
}

fn render(state: &mut ToolCatalogState, previous: PreviousSectionState<'_>) -> Option<String> {
    state
        .render_diff(previous)
        .map(|fragment: CatalogFragment| fragment.render())
}

fn text(chars: &[char]) -> String {
    chars.iter().collect()
}

fn group<'a>(snapshot: &'a ToolCatalogSnapshot, prefix: &str) -> &'a CatalogGroup {
    &snapshot
        .groups
        .iter()
        .find(|(p, _)| text(p) == prefix)
        .expect("group is listed")
        .1
}

#[test]
fn lists_tools_by_prefix_with_short_descriptions() {
    let mut state = catalog(vec![
        tool(
            "astrbot__web_search",
            "astrbot__",
            "Search the web. Returns titles & links.\nArgs: query.",
        ),
        tool("astrbot__send_file", "astrbot__", "Send a file to the user"),
        tool(
            "astrbot__harness__harness_weather",
            "astrbot__harness__",
            "Get the weather.",
        ),
        tool("astrbot__mcp_time__now", "astrbot__mcp_time__", "Current time."),
        tool("mcp__docs__search", "mcp__docs__", "Search the docs."),
        tool("memories__read", "memories__", "读取一条记忆。支持分页。"),
        tool("lookup", "", ""),
    ]);

    assert_eq!(
        render(&mut state, PreviousSectionState::Absent).as_deref(),
        Some(
            "<tool_catalog>\nTools callable in `exec` besides those in its description. Call one as `await tools.<prefix><name>(args)`, the prefix joining its headings: `a__` then `b__` gives `tools.a__b__<name>`. Each `ALL_TOOLS` entry's description shows a tool's arguments. Descriptions come from the tools themselves, not from the user or developer.\n\
(no prefix)\n\
- lookup\n\
astrbot__ — AstrBot tools for the current chat session.\n\
- send_file: Send a file to the user\n\
- web_search: Search the web.\n  \
harness__ — Plugin harness: test tools.\n  \
- harness_weather: Get the weather.\n  \
mcp_time__\n  \
- now: Current time.\n\
mcp__\n  \
docs__\n  \
- search: Search the docs.\n\
memories__\n\
- read: 读取一条记忆。\n\
</tool_catalog>"
        )
    );
}

#[test]
fn appends_only_what_changed() {
    let mut before = catalog(vec![
        tool("astrbot__web_search", "astrbot__", "Search the web."),
        tool("astrbot__weather", "astrbot__", "Get the weather."),
        tool("memories__read", "memories__", "Read a memory."),
    ]);
    let mut after = catalog(vec![
        tool("astrbot__web_search", "astrbot__", "Search the web or news."),
        tool("astrbot__draw", "astrbot__", "Draw a picture."),
        tool(
            "astrbot__harness__harness_weather",
            "astrbot__harness__",
            "Get the weather.",
        ),
        tool("mcp__time__now", "mcp__time__", "Current time."),
    ]);
    let previous = before.snapshot();

    assert_eq!(render(&mut before, PreviousSectionState::Known(&previous)), None);
    assert_eq!(
        render(&mut after, PreviousSectionState::Known(&previous)).as_deref(),
        Some(
            "<tool_catalog>\nThe tools callable in `exec` changed.\n\
Loaded:\n\
astrbot__ — AstrBot tools for the current chat session.\n\
- draw: Draw a picture.\n  \
harness__ — Plugin harness: test tools.\n  \
- harness_weather: Get the weather.\n\
mcp__\n  \
time__\n  \
- now: Current time.\n\
Updated:\n\
astrbot__ — AstrBot tools for the current chat session.\n\
- web_search: Search the web or news.\n\
Unloaded:\n\
- astrbot__: weather\n\
- memories__: read\n\
</tool_catalog>"
        )
    );
}

#[test]
fn says_when_no_tools_remain_and_stays_quiet_when_there_were_none() {
    let before = catalog(vec![tool("memories__read", "memories__", "Read a memory.")]);
    let mut empty = catalog(vec![]);
    let previous = before.snapshot();

    assert!(!empty.should_persist());
    assert_eq!(render(&mut empty, PreviousSectionState::Absent), None);
    assert_eq!(render(&mut empty, PreviousSectionState::Unknown), None);
    assert_eq!(
        render(&mut empty, PreviousSectionState::Known(&previous)).as_deref(),
        Some(
            "<tool_catalog>\nThe tools callable in `exec` changed.\n\
Unloaded:\n\
- memories__: read\n\
No such tools remain.\n\
</tool_catalog>"
        )
    );
}

#[test]
fn leaves_tools_past_the_budget_to_all_tools() {
    let long = "x".repeat(90);
    let mut state = catalog(
        (0..400)
            .map(|index| tool(&format!("astrbot__tool_{index:03}"), "astrbot__", &long))
            .collect(),
    );
    let snapshot = state.snapshot();
    let listed = group(&snapshot, "astrbot__").tools.len();

    assert!(listed > 0 && listed < 400);
    assert_eq!(snapshot.omitted, 400 - listed);
    let rendered = render(&mut state, PreviousSectionState::Absent).expect("catalog renders");
    assert!(rendered.len() < 14 * 1024);
    assert!(rendered.contains(&format!(
        "{} more not listed; filter `ALL_TOOLS` by name to find them.",
        400 - listed
    )));
}

#[test]
fn shortens_descriptions_to_their_first_sentence() {
    assert_eq!(
        short_description("  \n Fetch a page. Then more.", 100),
        "Fetch a page."
    );
    assert_eq!(
        short_description("v1.2 of the tool is here", 100),
        "v1.2 of the tool is here"
    );
    assert_eq!(short_description("发送消息！然后结束", 100), "发送消息！");
    assert_eq!(
        short_description(
            "Read a skill's file (relative `path`, e.g. docs/a.md). More.",
            100
        ),
        "Read a skill's file (relative `path`, e.g. docs/a.md)."
    );
    assert_eq!(
        short_description("Tabs, links etc. are kept. Rest.", 100),
        "Tabs, links etc. are kept."
    );
    assert_eq!(
        short_description(&"a".repeat(120), 10),
        format!("{}…", "a".repeat(9))
    );
}

#[test]
fn tools_past_the_budget_are_not_reported_unloaded() {
    let long = "x".repeat(90);
    let tools = |extra: usize| {
        (0..extra)
            .map(|index| tool(&format!("aaa__t{index:03}"), "aaa__", &long))
            .chain((0..60).map(|index| tool(&format!("zzz__t{index:03}"), "zzz__", &long)))
            .collect::<Vec<_>>()
    };
    let before = catalog(tools(40));
    let previous = before.snapshot();
    // More tools ahead of zzz__ in the order: the budget cannot list them all.
    let mut after = ToolCatalogState::new(tools(80), Some(&previous));

    let rendered =
        render(&mut after, PreviousSectionState::Known(&previous)).expect("changes render");
    assert!(!rendered.contains("Unloaded"), "{rendered}");
    // Tools listed before stay listed; the new ones wait for room.
    assert_eq!(
        group(&after.snapshot(), "zzz__").tools.len(),
        group(&previous, "zzz__").tools.len()
    );
}

#[test]
fn a_tool_loaded_again_comes_back_by_name() {
    let both = || {
        vec![
            tool("astrbot__weather", "astrbot__", "Get the weather."),
            tool("astrbot__calc", "astrbot__", "Calculate."),
        ]
    };
    let first = catalog(both());
    let seen_first = first.snapshot();
    let denied = ToolCatalogState::new(
        vec![tool("astrbot__calc", "astrbot__", "Calculate.")],
        Some(&seen_first),
    );
    let seen_denied = denied.snapshot();
    let mut again = ToolCatalogState::new(both(), Some(&seen_denied));

    assert_eq!(
        render(&mut again, PreviousSectionState::Known(&seen_denied)).as_deref(),
        Some(
            "<tool_catalog>\nThe tools callable in `exec` changed.\n\
Loaded:\n\
astrbot__ — AstrBot tools for the current chat session.\n\
- weather\n\
</tool_catalog>"
        )
    );
    // A new description is given again.
    let mut changed = ToolCatalogState::new(
        vec![
            tool(
                "astrbot__weather",
                "astrbot__",
                "Get the weather and the forecast.",
            ),
            tool("astrbot__calc", "astrbot__", "Calculate."),
        ],
        Some(&seen_denied),
    );
    assert!(render(&mut changed, PreviousSectionState::Known(&seen_denied))
        .expect("changes render")
        .contains("- weather: Get the weather and the forecast."));
}

#[test]
fn a_whole_listing_forgets_what_history_no_longer_holds() {
    let first = catalog(vec![tool("astrbot__weather", "astrbot__", "Get the weather.")]);
    let seen_first = first.snapshot();
    let denied = ToolCatalogState::new(vec![], Some(&seen_first));
    assert_eq!(denied.snapshot().remembered.len(), 1);

    // After compaction the catalog is listed whole again; what it held before
    // is gone from history, so it no longer counts as described.
    let mut compacted = ToolCatalogState::new(
        vec![tool("astrbot__calc", "astrbot__", "Calculate.")],
        Some(&denied.snapshot()),
    );
    assert!(render(&mut compacted, PreviousSectionState::Absent).is_some());
    assert!(compacted.snapshot().remembered.is_empty());
}

#[test]
fn a_sender_without_tools_does_not_cost_a_whole_new_listing() {
    let weather = || tool("astrbot__weather", "astrbot__", "Get the weather.");
    let first = catalog(vec![weather()]);
    let seen_first = first.snapshot();
    let none = ToolCatalogState::new(vec![], Some(&seen_first));
    // History holds a catalog, so the empty one is kept as the baseline.
    assert!(none.should_persist());
    let seen_none = none.snapshot();
    let mut again = ToolCatalogState::new(vec![weather()], Some(&seen_none));

    assert_eq!(
        render(&mut again, PreviousSectionState::Known(&seen_none)).as_deref(),
        Some(
            "<tool_catalog>\nThe tools callable in `exec` changed.\n\
Loaded:\n\
astrbot__ — AstrBot tools for the current chat session.\n\
- weather\n\
</tool_catalog>"
        )
    );
}

#[test]
fn a_tool_past_the_budget_is_still_reported_when_it_goes() {
    // 12 short aaa__ tools, then enough zzz__ tools to fill the budget.
    let tools = |aaa_description: &str| {
        (0..12)
            .map(|index| tool(&format!("aaa__t{index:03}"), "aaa__", aaa_description))
            .chain(
                (0..115).map(|index| tool(&format!("zzz__t{index:03}"), "zzz__", &"x".repeat(90))),
            )
            .collect::<Vec<_>>()
    };
    let first = catalog(tools("short"));
    let seen_first = first.snapshot();
    // Longer descriptions ahead of zzz__ push listed zzz__ tools out.
    let mut pushed = ToolCatalogState::new(tools(&"y".repeat(99)), Some(&seen_first));
    let seen_pushed = pushed.snapshot();
    let gone_name = seen_pushed
        .unlisted
        .iter()
        .find(|(prefix, _)| text(prefix) == "zzz__")
        .and_then(|(_, names)| names.names.first())
        .map(|name| text(name))
        .expect("a listed tool was pushed out");
    let rendered =
        render(&mut pushed, PreviousSectionState::Known(&seen_first)).expect("renders");
    assert!(!rendered.contains("Unloaded"), "{rendered}");

    let without = tools(&"y".repeat(99))
        .into_iter()
        .filter(|tool| tool.global_name != format!("zzz__{gone_name}"))
        .collect::<Vec<_>>();
    let mut removed = ToolCatalogState::new(without, Some(&seen_pushed));
    let rendered = render(&mut removed, PreviousSectionState::Known(&seen_pushed))
        .expect("removal renders");
    assert!(
        rendered.contains(&format!("- zzz__: {gone_name}")),
        "{rendered}"
    );
}

#[test]
fn an_empty_catalog_rendered_whole_leaves_nothing_behind() {
    let weather = || tool("astrbot__weather", "astrbot__", "Get the weather.");
    let first = catalog(vec![weather()]);
    let seen_first = first.snapshot();
    let mut none = ToolCatalogState::new(vec![], Some(&seen_first));

    // Compaction re-renders the catalog into an empty history: nothing to
    // list, and nothing kept, so the next tools arrive as a whole listing.
    assert_eq!(render(&mut none, PreviousSectionState::Absent), None);
    assert!(!none.should_persist());
    let mut again = ToolCatalogState::new(vec![weather()], None);
    assert!(render(&mut again, PreviousSectionState::Absent)
        .expect("whole listing")
        .contains("- weather: Get the weather."));
}

#[test]
fn a_catalog_against_its_own_snapshot_says_nothing() {
    let mut state = catalog(vec![
        tool("astrbot__web_search", "astrbot__", "Search the web."),
        tool("lookup", "", "Look it up."),
    ]);
    let own = state.snapshot();
    assert_eq!(render(&mut state, PreviousSectionState::Known(&own)), None);
    // Rendered whole, it still says nothing against its (now bare) snapshot.
    assert!(render(&mut state, PreviousSectionState::Absent).is_some());
    let own = state.snapshot();
    assert!(own.remembered.is_empty() && own.unlisted.is_empty());
    assert_eq!(render(&mut state, PreviousSectionState::Known(&own)), None);
}

#[test]
fn descriptions_cannot_open_or_close_a_tag() {
    let mut state = catalog(vec![tool("x__a", "x__", "Use <b> & </tool_catalog> freely.")]);
    let rendered = render(&mut state, PreviousSectionState::Absent).expect("renders");
    assert!(rendered.contains("- a: Use &lt;b&gt; &amp; &lt;/tool_catalog&gt; freely."));
    assert_eq!(rendered.matches("</tool_catalog>").count(), 1);
}

#[test]
fn the_fragment_is_a_developer_message_of_its_kind() {
    let mut state = catalog(vec![tool("lookup", "", "Look it up.")]);
    let fragment = state.render_diff(PreviousSectionState::Unknown).expect("renders");
    assert_eq!(fragment.role(), "developer");
    assert_eq!(fragment.content_kind(), "tools.catalog");
}

#[test]
fn listed_names_join_prefix_and_name() {
    let state = catalog(vec![
        tool("astrbot__web_search", "astrbot__", "Search the web."),
        tool("lookup", "", "Look it up."),
    ]);
    let listed = state
        .snapshot()
        .listed()
        .into_iter()
        .map(|(name, description)| (text(&name), text(&description)))
        .collect::<Vec<_>>();
    assert_eq!(
        listed,
        vec![
            ("lookup".to_string(), "Look it up.".to_string()),
            ("astrbot__web_search".to_string(), "Search the web.".to_string()),
        ]
    );
}

#[test]
fn whitespace_is_what_std_says_it_is() {
    for u in 0u32..=0x10ffff {
        if let Some(c) = char::from_u32(u) {
            assert_eq!(codex_astrbot::describe::is_whitespace(c), c.is_whitespace(), "{u:#x}");
        }
    }
}

#[test]
fn escaped_text_decodes_back() {
    let text = "a <b> & c &lt; d";
    let mut rendered = String::from("x");
    codex_astrbot::catalog_render::push_escaped(&mut rendered, &text.chars().collect());
    assert_eq!(rendered, "xa &lt;b&gt; &amp; c &amp;lt; d");
    let escaped = &rendered[1..];
    assert!(!escaped.contains('<') && !escaped.contains('>'));
    assert_eq!(escaped.replace("&lt;", "<").replace("&gt;", ">").replace("&amp;", "&"), text);
}

#[test]
fn a_snapshot_taken_back_renders_nothing() {
    let mut state = catalog(vec![
        tool("astrbot__web_search", "astrbot__", "Search the web."),
        tool("lookup", "", "Look it up."),
    ]);
    let snapshot = state.snapshot();
    let restored = ToolCatalogSnapshot {
        groups: snapshot
            .groups
            .iter()
            .map(|(prefix, group)| {
                (prefix.clone(), CatalogGroup { description: group.description.clone(), tools: group.tools.clone() })
            })
            .collect(),
        omitted: snapshot.omitted,
        remembered: snapshot.remembered.clone(),
        unlisted: Vec::new(),
    };
    assert_eq!(restored, state.snapshot());
    assert_eq!(render(&mut state, PreviousSectionState::Known(&restored)), None);
}
