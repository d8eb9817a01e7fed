//! Structured code-mode results for dynamic tools.
//!
//! A script receives an MCP-shaped result rather than one joined string:
//! each content item (text, image or audio with its MIME type), whether the
//! call failed, and the text items joined, so `image(result.content[i])`
//! works and failures are visible.

use vstd::prelude::*;
use crate::describe::slice_chars;
use crate::text::chars_of;
use crate::text::concat_chars;
use crate::text::has_prefix;
use crate::text::has_suffix;
use crate::text::string_of;

verus! {

/// One item of a dynamic tool's output.
#[derive(Debug, Clone, PartialEq, Eq)]
pub enum OutputItem {
    InputText { text: String },
    /// An image given inline, as a URL (a data URL when it carries its
    /// bytes).
    InputImageInline { image_url: String },
    /// An image given by a stored file.
    InputImageFile { file_id: String },
    InputAudio { audio_url: String },
    /// Content only the model provider can read.
    EncryptedContent,
}

/// One content item of a structured result.
#[derive(Debug, Clone, PartialEq, Eq)]
pub enum StructuredContent {
    Text { text: String },
    Image { data: String, mime_type: String },
    Audio { data: String, mime_type: String },
}

/// What a script receives from a dynamic tool.
#[derive(Debug, Clone, PartialEq, Eq)]
pub struct StructuredResult {
    pub content: Vec<StructuredContent>,
    pub is_error: bool,
    /// The text items, joined by newlines.
    pub text: String,
}

/// A dynamic tool's output, returned to code-mode scripts structured.
pub struct StructuredDynamicToolOutput {
    pub body: Vec<OutputItem>,
    pub success: Option<bool>,
}

/// (MIME type, data) of a base64 data URL `data:<mime>;base64,<data>`.
pub open spec fn split_data_url_spec(url: Seq<char>) -> Option<(Seq<char>, Seq<char>)> {
    let head = "data:"@;
    let tail = ";base64"@;
    if !(head.len() <= url.len() && url.take(head.len() as int) == head) {
        None
    } else {
        let rest = url.skip(head.len() as int);
        let i = crate::describe::index_of(rest, ',');
        if i >= rest.len() {
            None
        } else {
            let meta = rest.take(i);
            if tail.len() <= meta.len() && meta.skip(meta.len() - tail.len()) == tail {
                Some((meta.take(meta.len() - tail.len()), rest.skip(i + 1)))
            } else {
                None
            }
        }
    }
}

/// Splits a base64 data URL into its MIME type and data.
pub fn split_data_url(url: &str) -> (r: Option<(String, String)>)
    ensures
        match r {
            Some((mime, data)) => split_data_url_spec(url@) == Some((mime@, data@)),
            None => split_data_url_spec(url@) is None,
        },
{
    let u = chars_of(url);
    let head = chars_of("data:");
    if !has_prefix(&u, &head) {
        return None;
    }
    let rest = slice_chars(&u, head.len(), u.len());
    assert(rest@ =~= u@.skip(head@.len() as int));
    let mut i: usize = 0;
    assert(rest@.skip(0) =~= rest@);
    while i < rest.len() && rest[i] != ','
        invariant
            i <= rest.len(),
            crate::describe::index_of(rest@, ',') == i + crate::describe::index_of(rest@.skip(i as int), ','),
        decreases rest.len() - i,
    {
        assert(rest@.skip(i as int).drop_first() =~= rest@.skip(i + 1));
        i = i + 1;
    }
    proof {
        if i < rest.len() {
            assert(rest@.skip(i as int)[0] == ',');
        } else {
            assert(rest@.skip(i as int).len() == 0);
        }
    }
    if i >= rest.len() {
        return None;
    }
    let meta = slice_chars(&rest, 0, i);
    assert(meta@ =~= rest@.take(i as int));
    let tail = chars_of(";base64");
    if !has_suffix(&meta, &tail) {
        return None;
    }
    let mime = slice_chars(&meta, 0, meta.len() - tail.len());
    let data = slice_chars(&rest, i + 1, rest.len());
    assert(mime@ =~= meta@.take(meta@.len() - tail@.len()));
    assert(data@ =~= rest@.skip(i + 1));
    Some((string_of(&mime), string_of(&data)))
}

/// A content item as plain values: a tag (text, image, audio) and its
/// fields.
pub open spec fn content_view(c: StructuredContent) -> (u8, Seq<char>, Seq<char>) {
    match c {
        StructuredContent::Text { text } => (0, text@, seq![]),
        StructuredContent::Image { data, mime_type } => (1, data@, mime_type@),
        StructuredContent::Audio { data, mime_type } => (2, data@, mime_type@),
    }
}

/// The content item an output item becomes, if any: a data URL becomes
/// its data and MIME type, any other URL stays as text, a stored image is
/// named, and encrypted content is left out.
pub open spec fn item_content_spec(item: OutputItem) -> Option<(u8, Seq<char>, Seq<char>)> {
    match item {
        OutputItem::InputText { text } => Some((0, text@, seq![])),
        OutputItem::InputImageInline { image_url } => match split_data_url_spec(image_url@) {
            Some((mime, data)) => Some((1, data, mime)),
            None => Some((0, image_url@, seq![])),
        },
        OutputItem::InputImageFile { file_id } => Some((0, "[image file "@ + file_id@ + "]"@, seq![])),
        OutputItem::InputAudio { audio_url } => match split_data_url_spec(audio_url@) {
            Some((mime, data)) => Some((2, data, mime)),
            None => Some((0, audio_url@, seq![])),
        },
        OutputItem::EncryptedContent => None,
    }
}

pub open spec fn contents_spec(body: Seq<OutputItem>) -> Seq<(u8, Seq<char>, Seq<char>)>
    decreases body.len(),
{
    if body.len() == 0 {
        seq![]
    } else {
        let rest = contents_spec(body.drop_last());
        match item_content_spec(body.last()) {
            Some(c) => rest.push(c),
            None => rest,
        }
    }
}

/// The text items of the output, in order.
pub open spec fn texts_spec(body: Seq<OutputItem>) -> Seq<Seq<char>>
    decreases body.len(),
{
    if body.len() == 0 {
        seq![]
    } else {
        let rest = texts_spec(body.drop_last());
        match body.last() {
            OutputItem::InputText { text } => rest.push(text@),
            _ => rest,
        }
    }
}

/// `parts` joined by newlines.
pub open spec fn join_lines(parts: Seq<Seq<char>>) -> Seq<char>
    decreases parts.len(),
{
    if parts.len() == 0 {
        seq![]
    } else if parts.len() == 1 {
        parts[0]
    } else {
        join_lines(parts.drop_last()) + seq!['\n'] + parts.last()
    }
}

pub open spec fn result_contents(r: StructuredResult) -> Seq<(u8, Seq<char>, Seq<char>)> {
    r.content@.map_values(|c: StructuredContent| content_view(c))
}

fn item_content(item: &OutputItem) -> (r: Option<StructuredContent>)
    ensures
        match r {
            Some(c) => item_content_spec(*item) == Some(content_view(c)),
            None => item_content_spec(*item) is None,
        },
{
    match item {
        OutputItem::InputText { text } => Some(StructuredContent::Text { text: text.clone() }),
        OutputItem::InputImageInline { image_url } => match split_data_url(image_url.as_str()) {
            Some((mime, data)) => Some(StructuredContent::Image { data, mime_type: mime }),
            None => Some(StructuredContent::Text { text: image_url.clone() }),
        },
        OutputItem::InputImageFile { file_id } => {
            let t = concat_chars(&concat_chars(&chars_of("[image file "), &chars_of(file_id.as_str())), &chars_of("]"));
            Some(StructuredContent::Text { text: string_of(&t) })
        },
        OutputItem::InputAudio { audio_url } => match split_data_url(audio_url.as_str()) {
            Some((mime, data)) => Some(StructuredContent::Audio { data, mime_type: mime }),
            None => Some(StructuredContent::Text { text: audio_url.clone() }),
        },
        OutputItem::EncryptedContent => None,
    }
}

/// The result a script receives for a dynamic tool's output: one content
/// item per output item (encrypted content left out), an error when the
/// call failed (success unknown counts as success), and the text items
/// joined by newlines.
pub fn structured_code_mode_result(body: &Vec<OutputItem>, success: Option<bool>) -> (r: StructuredResult)
    ensures
        result_contents(r) == contents_spec(body@),
        r.is_error == (success == Some(false)),
        r.text@ == join_lines(texts_spec(body@)),
{
    let mut content: Vec<StructuredContent> = Vec::new();
    let mut text: Vec<char> = Vec::new();
    let mut n_texts: usize = 0;
    let mut i: usize = 0;
    assert(content@.map_values(|c: StructuredContent| content_view(c)) =~= seq![]);
    while i < body.len()
        invariant
            i <= body.len(),
            content@.map_values(|c: StructuredContent| content_view(c)) == contents_spec(body@.take(i as int)),
            text@ == join_lines(texts_spec(body@.take(i as int))),
            n_texts == texts_spec(body@.take(i as int)).len(),
            n_texts <= i,
        decreases body.len() - i,
    {
        proof {
            assert(body@.take(i + 1).drop_last() =~= body@.take(i as int));
            assert(body@.take(i + 1).last() == body@[i as int]);
        }
        let ghost old_c = content@;
        match item_content(&body[i]) {
            Some(c) => {
                content.push(c);
                assert(content@.map_values(|c: StructuredContent| content_view(c)) =~= old_c.map_values(
                    |c: StructuredContent| content_view(c),
                ).push(content_view(c)));
            },
            None => {},
        }
        match &body[i] {
            OutputItem::InputText { text: t } => {
                let ghost old_text = text@;
                let ghost parts = texts_spec(body@.take(i as int));
                if n_texts > 0 {
                    text.push('\n');
                }
                let tc = chars_of(t.as_str());
                text = concat_chars(&text, &tc);
                proof {
                    let new_parts = parts.push(t@);
                    assert(new_parts.drop_last() =~= parts);
                    if parts.len() == 0 {
                        assert(text@ =~= new_parts[0]);
                    } else {
                        assert(text@ =~= join_lines(parts) + seq!['\n'] + t@);
                    }
                }
                n_texts = n_texts + 1;
            },
            _ => {},
        }
        i = i + 1;
    }
    assert(body@.take(body.len() as int) =~= body@);
    let is_error = match success {
        Some(b) => !b,
        None => false,
    };
    StructuredResult { content, is_error, text: string_of(&text) }
}

impl StructuredDynamicToolOutput {
    pub fn new(body: Vec<OutputItem>, success: Option<bool>) -> (r: Self)
        ensures
            r.body@ == body@,
            r.success == success,
    {
        StructuredDynamicToolOutput { body, success }
    }

    /// The result a code-mode script receives.
    pub fn code_mode_result(&self) -> (r: StructuredResult)
        ensures
            result_contents(r) == contents_spec(self.body@),
            r.is_error == (self.success == Some(false)),
            r.text@ == join_lines(texts_spec(self.body@)),
    {
        structured_code_mode_result(&self.body, self.success)
    }
}

} // verus!
