use codex_astrbot::additional_context::AdditionalContextDeveloperFragment;
use codex_astrbot::additional_context::AdditionalContextUserFragment;
use codex_astrbot::additional_context::MAX_ADDITIONAL_CONTEXT_VALUE_TOKENS;
use codex_astrbot::context_store::is_fragment_of;
use codex_astrbot::context_store::AdditionalContextEntry;
use codex_astrbot::context_store::AdditionalContextKind;
use codex_astrbot::context_store::AdditionalContextStore;
use codex_astrbot::context_store::ContentItem;
use codex_astrbot::context_store::ResponseItem;

fn values(pairs: &[(&str, &str, AdditionalContextKind)]) -> Vec<(String, AdditionalContextEntry)> {
    let mut values = pairs
        .iter()
        .map(|(key, value, kind)| {
            (
                (*key).to_string(),
                AdditionalContextEntry {
                    value: (*value).to_string(),
                    kind: *kind,
                },
            )
        })
        .collect::<Vec<_>>();
    values.sort_by(|a, b| a.0.cmp(&b.0));
    values
}

/// The values as cut to a budget they all fit in.
fn uncut(values: &[(String, AdditionalContextEntry)]) -> Vec<String> {
    values.iter().map(|(_, entry)| entry.value.clone()).collect()
}

#[test]
fn only_values_history_holds_are_rendered_again() {
    let mut store = AdditionalContextStore::new();
    let first = values(&[
        ("persona", "be a cat", AdditionalContextKind::Application),
        ("tab", "one", AdditionalContextKind::Untrusted),
    ]);
    let cut = uncut(&first);
    let recorded = store.merge(first, &cut);
    // The persona changes; its new fragment is submitted but not recorded.
    let second = values(&[
        ("persona", "be a dog", AdditionalContextKind::Application),
        ("tab", "one", AdditionalContextKind::Untrusted),
    ]);
    let cut = uncut(&second);
    let pending = store.merge(second, &cut);
    assert_eq!(pending.len(), 1);

    let cut = uncut(&store.values);
    let again = store.render_recorded(&cut, &recorded);
    assert_eq!(
        again.iter().map(|(key, _)| key.as_str()).collect::<Vec<_>>(),
        vec!["tab"]
    );
    assert!(is_fragment_of(&again[0].1, "tab"));
    assert!(is_fragment_of(&recorded[0], "persona"));
    assert!(is_fragment_of(&pending[0], "persona"));
    assert!(!is_fragment_of(&pending[0], "persona_examples"));
}

#[test]
fn fragments_render_their_key_around_the_value() {
    let user = AdditionalContextUserFragment::new("tab".to_string(), "one".to_string());
    assert_eq!(user.max_tokens(), MAX_ADDITIONAL_CONTEXT_VALUE_TOKENS);
    assert_eq!(user.role(), "user");
    assert_eq!(user.content_kind(), "additional_content.tab");
    assert_eq!(user.markers(), ("<external_", ">"));
    assert_eq!(user.body("one"), "tab>one</external_tab");
    assert_eq!(user.text("one"), "<external_tab>one</external_tab>");
    let user = user.with_max_tokens(5);
    assert_eq!(user.max_tokens(), 5);
    assert_eq!(user.value(), "one");

    let developer = AdditionalContextDeveloperFragment::new("persona".to_string(), "be a cat".to_string())
        .with_max_tokens(7);
    assert_eq!(developer.max_tokens(), 7);
    assert_eq!(developer.role(), "developer");
    assert_eq!(developer.markers(), ("", ""));
    assert_eq!(developer.body("be a cat"), "<persona>be a cat</persona>");
    assert_eq!(developer.key(), "persona");
}

#[test]
fn user_fragment_texts_are_recognized() {
    assert!(AdditionalContextUserFragment::matches_text("<external_tab>one</external_tab>"));
    assert!(AdditionalContextUserFragment::matches_text("  \n<external_tab>one</external_tab>\n"));
    assert!(!AdditionalContextUserFragment::matches_text("<external_tab>one</external_other>"));
    assert!(!AdditionalContextUserFragment::matches_text("<persona>be a cat</persona>"));
    assert!(!AdditionalContextUserFragment::matches_text("<external_tab"));
    let user = AdditionalContextUserFragment::new("k".to_string(), "v".to_string());
    assert!(AdditionalContextUserFragment::matches_text(&user.text("a > b")));
}

#[test]
fn merging_the_same_values_again_sends_nothing() {
    let mut store = AdditionalContextStore::new();
    let first = values(&[("tab", "one", AdditionalContextKind::Untrusted)]);
    let cut = uncut(&first);
    assert_eq!(store.merge(first.clone(), &cut).len(), 1);
    assert!(store.merge(first, &cut).is_empty());
}

#[test]
fn other_items_are_no_fragments() {
    let two_texts = ResponseItem::Message {
        role: "user".to_string(),
        content: vec![
            ContentItem::InputText { text: "<external_tab>".to_string() },
            ContentItem::InputText { text: "x".to_string() },
        ],
    };
    assert!(!is_fragment_of(&two_texts, "tab"));
    assert!(!is_fragment_of(&ResponseItem::Other, "tab"));
    let assistant = ResponseItem::Message {
        role: "assistant".to_string(),
        content: vec![ContentItem::InputText { text: "<tab>x</tab>".to_string() }],
    };
    assert!(!is_fragment_of(&assistant, "tab"));
}

#[test]
fn a_user_fragment_is_recognised_whatever_its_value() {
    for value in ["", "plain", "with <tags> & </external_other>", "  spaced  \n"] {
        let fragment = AdditionalContextUserFragment::new("persona".to_string(), value.to_string());
        let text = fragment.text(value);
        assert!(AdditionalContextUserFragment::matches_text(&text), "{text}");
    }
    assert!(!AdditionalContextUserFragment::matches_text("<external_a>x</external_b>"));
}
