//! Where a generated image is saved, and what the model is told of it.

use vstd::prelude::*;
use crate::text::chars_of;
use crate::text::concat_chars;
use crate::text::string_of;
use crate::tool_catalog::utf8_len;
use crate::tool_catalog::utf8_len_sat;

verus! {

pub const GENERATED_IMAGE_ARTIFACTS_DIR: &'static str = "generated_images";

pub const MAX_IMAGE_GENERATION_OUTPUT_HINT_BYTES: usize = 1024;

pub const FALLBACK_NAME: &'static str = "generated_image";

pub const HINT_START: &'static str = "The image was generated and saved on the host as ";

pub const HINT_MIDDLE: &'static str = " (in ";

pub const HINT_END: &'static str = "), which none of your tools can reach.\nIt has NOT been shown to the user. A copy is being placed in your workspace and you will be told its path; send it from there, or keep working with it there.\nDo not tell the user the image is already visible, and do not render it as a Markdown image or file link.";

pub open spec fn is_name_char(c: char) -> bool {
    ('a' <= c && c <= 'z') || ('A' <= c && c <= 'Z') || ('0' <= c && c <= '9') || c == '-' || c == '_'
}

/// `value` with every character other than ASCII letters, digits, `-` and
/// `_` turned into `_`; `generated_image` when empty.
pub open spec fn sanitize_spec(value: Seq<char>) -> Seq<char> {
    if value.len() == 0 {
        FALLBACK_NAME@
    } else {
        value.map_values(|c: char| if is_name_char(c) { c } else { '_' })
    }
}

/// A name safe as one path segment.
pub fn sanitize(value: &str) -> (r: String)
    ensures
        r@ == sanitize_spec(value@),
        value@.len() > 0 ==> r@.len() == value@.len(),
        forall|i: int|
            0 <= i < value@.len() ==> (#[trigger] r@[i] == value@[i] <==> (('a' <= value@[i] && value@[i] <= 'z') || (
            'A' <= value@[i] && value@[i] <= 'Z') || ('0' <= value@[i] && value@[i] <= '9') || value@[i] == '-'
                || value@[i] == '_')),
{
    proof {
        lemma_sanitize_keeps_name_chars(value@);
    }
    let v = chars_of(value);
    if v.len() == 0 {
        return string_of(&chars_of(FALLBACK_NAME));
    }
    let mut out: Vec<char> = Vec::new();
    let mut i: usize = 0;
    while i < v.len()
        invariant
            i <= v.len(),
            out@ == v@.take(i as int).map_values(|c: char| if is_name_char(c) { c } else { '_' }),
        decreases v.len() - i,
    {
        let c = v[i];
        let keep = ('a' <= c && c <= 'z') || ('A' <= c && c <= 'Z') || ('0' <= c && c <= '9') || c == '-' || c == '_';
        out.push(if keep { c } else { '_' });
        i = i + 1;
        assert(out@ =~= v@.take(i as int).map_values(|c: char| if is_name_char(c) { c } else { '_' }));
    }
    assert(v@.take(v.len() as int) =~= v@);
    string_of(&out)
}

/// The path of a generated image below the save root, segment by segment:
/// the artifacts directory, the sanitized session, the sanitized call with
/// `.png`.
pub fn image_generation_artifact_path(session_id: &str, call_id: &str) -> (r: Vec<String>)
    ensures
        r@.len() == 3,
        r@[0]@ == GENERATED_IMAGE_ARTIFACTS_DIR@,
        r@[1]@ == sanitize_spec(session_id@),
        r@[2]@ == sanitize_spec(call_id@) + ".png"@,
{
    let file = concat_chars(&chars_of(sanitize(call_id).as_str()), &chars_of(".png"));
    vec![string_of(&chars_of(GENERATED_IMAGE_ARTIFACTS_DIR)), sanitize(session_id), string_of(&file)]
}

/// Sanitizing keeps every ASCII letter (either case), digit, `-` and `_`
/// where it is and replaces every other character by `_`; a non-empty
/// value keeps its length, so a value made only of such characters is
/// kept as it is and two such values never share a name.
pub proof fn lemma_sanitize_keeps_name_chars(value: Seq<char>)
    ensures
        value.len() > 0 ==> sanitize_spec(value).len() == value.len(),
        forall|i: int|
            0 <= i < value.len() ==> (#[trigger] sanitize_spec(value)[i] == value[i] <==> (('a' <= value[i] && value[i]
                <= 'z') || ('A' <= value[i] && value[i] <= 'Z') || ('0' <= value[i] && value[i] <= '9') || value[i]
                == '-' || value[i] == '_')),
        forall|i: int|
            0 <= i < value.len() && !(('a' <= value[i] && value[i] <= 'z') || ('A' <= value[i] && value[i] <= 'Z') || (
            '0' <= value[i] && value[i] <= '9') || value[i] == '-' || value[i] == '_') ==> #[trigger] sanitize_spec(
                value,
            )[i] == '_',
{
}

/// Every saved image name is one safe segment: no separator, no dot-only
/// name, never empty.
pub proof fn lemma_sanitized_names_are_single_segments(value: Seq<char>)
    ensures
        sanitize_spec(value).len() > 0,
        forall|i: int| 0 <= i < sanitize_spec(value).len() ==> is_name_char(#[trigger] sanitize_spec(value)[i]),
{
    reveal_strlit("generated_image");
    if value.len() == 0 {
        assert(FALLBACK_NAME@ =~= seq!['g', 'e', 'n', 'e', 'r', 'a', 't', 'e', 'd', '_', 'i', 'm', 'a', 'g', 'e']);
    }
}

pub open spec fn hint_text(dir: Seq<char>, path: Seq<char>) -> Seq<char> {
    HINT_START@ + path + HINT_MIDDLE@ + dir + HINT_END@
}

/// The model-facing note on a generated image, omitted when longer than
/// [`MAX_IMAGE_GENERATION_OUTPUT_HINT_BYTES`] in UTF-8.
pub open spec fn output_hint_spec(dir: Seq<char>, path: Seq<char>) -> Option<Seq<char>> {
    if utf8_len(hint_text(dir, path)) <= MAX_IMAGE_GENERATION_OUTPUT_HINT_BYTES {
        Some(hint_text(dir, path))
    } else {
        None
    }
}

/// The note telling the model where the image was saved and that the user
/// has not seen it yet; `None` when it would be too long.
pub fn image_generation_output_hint(image_output_dir: &str, image_output_path: &str) -> (r: Option<String>)
    ensures
        match r {
            Some(h) => output_hint_spec(image_output_dir@, image_output_path@) == Some(h@),
            None => output_hint_spec(image_output_dir@, image_output_path@) is None,
        },
{
    let a = concat_chars(&chars_of(HINT_START), &chars_of(image_output_path));
    let b = concat_chars(&a, &chars_of(HINT_MIDDLE));
    let c = concat_chars(&b, &chars_of(image_output_dir));
    let hint = concat_chars(&c, &chars_of(HINT_END));
    assert(hint@ =~= hint_text(image_output_dir@, image_output_path@));
    if utf8_len_sat(&hint) <= MAX_IMAGE_GENERATION_OUTPUT_HINT_BYTES {
        Some(string_of(&hint))
    } else {
        None
    }
}

/// The hint the model gets with a generated image: the host's text when
/// its callback answered, else the built-in note (if it fits).
pub fn tool_result_hint(host_hint: Option<String>, built_in: Option<String>) -> (r: Option<String>)
    ensures
        host_hint is Some ==> r == host_hint,
        host_hint is None ==> r == built_in,
{
    match host_hint {
        Some(h) => Some(h),
        None => built_in,
    }
}

} // verus!
