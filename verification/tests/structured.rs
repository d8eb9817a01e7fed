use codex_astrbot::structured_result::split_data_url;
use codex_astrbot::structured_result::structured_code_mode_result;
use codex_astrbot::structured_result::OutputItem;
use codex_astrbot::structured_result::StructuredContent;
use codex_astrbot::structured_result::StructuredDynamicToolOutput;
use codex_astrbot::structured_result::StructuredResult;

#[test]
fn keeps_success_text_and_images() {
    let body = vec![
        OutputItem::InputText { text: "hello".to_string() },
        OutputItem::InputImageInline { image_url: "data:image/png;base64,AAAA".to_string() },
        OutputItem::InputText { text: "world".to_string() },
    ];
    assert_eq!(
        structured_code_mode_result(&body, Some(false)),
        StructuredResult {
            content: vec![
                StructuredContent::Text { text: "hello".to_string() },
                StructuredContent::Image { data: "AAAA".to_string(), mime_type: "image/png".to_string() },
                StructuredContent::Text { text: "world".to_string() },
            ],
            is_error: true,
            text: "hello\nworld".to_string(),
        }
    );
}

#[test]
fn other_items_become_text_or_are_dropped() {
    let output = StructuredDynamicToolOutput::new(
        vec![
            OutputItem::InputImageInline { image_url: "https://x/y.png".to_string() },
            OutputItem::InputImageFile { file_id: "f1".to_string() },
            OutputItem::InputAudio { audio_url: "data:audio/wav;base64,UklG".to_string() },
            OutputItem::EncryptedContent,
        ],
        None,
    );
    assert_eq!(
        output.code_mode_result(),
        StructuredResult {
            content: vec![
                StructuredContent::Text { text: "https://x/y.png".to_string() },
                StructuredContent::Text { text: "[image file f1]".to_string() },
                StructuredContent::Audio { data: "UklG".to_string(), mime_type: "audio/wav".to_string() },
            ],
            is_error: false,
            text: String::new(),
        }
    );
}

#[test]
fn data_urls_split_into_type_and_data() {
    assert_eq!(
        split_data_url("data:image/png;base64,AA,BB"),
        Some(("image/png".to_string(), "AA,BB".to_string()))
    );
    assert_eq!(split_data_url("data:image/png,AAAA"), None);
    assert_eq!(split_data_url("image/png;base64,AAAA"), None);
    assert_eq!(split_data_url("data:;base64"), None);
    assert_eq!(split_data_url("data:;base64,"), Some((String::new(), String::new())));
}
