//! Additional context supplied by the application: fragments that carry one
//! keyed value into the conversation, and the store that decides which of
//! them are sent again.
//!
//! A value is cut to a token budget before it is rendered; the cut value is
//! handed in by the caller.

use vstd::prelude::*;
use crate::assoc::lookup;
use crate::describe::index_of;
use crate::describe::lemma_index_of_unique;
use crate::describe::lemma_trim_end;
use crate::describe::lemma_trim_start;
use crate::describe::trim_start;
use crate::describe::lemma_index_of_bounds;
use crate::describe::slice_chars;
use crate::describe::trim;
use crate::describe::trim_range;
use crate::text::chars_eq;
use crate::text::chars_of;
use crate::text::concat_chars;
use crate::text::has_prefix;
use crate::text::has_suffix;
use crate::text::string_of;

verus! {

/// Default token budget of a value.
pub const MAX_ADDITIONAL_CONTEXT_VALUE_TOKENS: usize = 1000;

pub const ADDITIONAL_CONTEXT_END_MARKER_SUFFIX: &'static str = ">";

pub const ADDITIONAL_CONTEXT_START_MARKER_PREFIX: &'static str = "<external_";

const USER_ROLE: &'static str = "user";

const DEVELOPER_ROLE: &'static str = "developer";

const CONTENT_KIND_PREFIX: &'static str = "additional_content.";

const USER_CLOSE_PREFIX: &'static str = "</external_";

/// The text of a fragment.
pub struct FragmentM {
    pub key: Seq<char>,
    pub value: Seq<char>,
    pub max_tokens: nat,
}

/// Body of a user fragment: `key>value</external_key`.
pub open spec fn user_body(key: Seq<char>, value: Seq<char>) -> Seq<char> {
    key + ">"@ + value + "</external_"@ + key
}

/// Text of a user fragment: its body between the markers.
pub open spec fn user_text(key: Seq<char>, value: Seq<char>) -> Seq<char> {
    "<external_"@ + user_body(key, value) + ">"@
}

/// Body (and text) of a developer fragment: `<key>value</key>`.
pub open spec fn developer_body(key: Seq<char>, value: Seq<char>) -> Seq<char> {
    "<"@ + key + ">"@ + value + "</"@ + key + ">"@
}

pub open spec fn starts_with(s: Seq<char>, p: Seq<char>) -> bool {
    p.len() <= s.len() && s.take(p.len() as int) == p
}

pub open spec fn ends_with(s: Seq<char>, p: Seq<char>) -> bool {
    p.len() <= s.len() && s.skip(s.len() - p.len()) == p
}

/// Whether `text` is a user fragment: trimmed, it opens with
/// `<external_key>` and ends with `</external_key>`, the key running to the
/// first `>`.
pub open spec fn matches_text_spec(text: Seq<char>) -> bool {
    let t = trim(text);
    let open = "<external_"@;
    if !starts_with(t, open) {
        false
    } else {
        let rest = t.skip(open.len() as int);
        let i = index_of(rest, '>');
        if i >= rest.len() {
            false
        } else {
            ends_with(rest.skip(i + 1), "</external_"@ + rest.take(i) + ">"@)
        }
    }
}

/// A value the application supplies for the user to see as context, kept
/// apart from what the user typed.
#[derive(Debug, Clone, PartialEq, Eq)]
pub struct AdditionalContextUserFragment {
    key: String,
    value: String,
    max_tokens: usize,
}

impl View for AdditionalContextUserFragment {
    type V = FragmentM;

    closed spec fn view(&self) -> FragmentM {
        FragmentM { key: self.key@, value: self.value@, max_tokens: self.max_tokens as nat }
    }
}

impl AdditionalContextUserFragment {
    pub fn new(key: String, value: String) -> (r: Self)
        ensures
            r@ == (FragmentM {
                key: key@,
                value: value@,
                max_tokens: MAX_ADDITIONAL_CONTEXT_VALUE_TOKENS as nat,
            }),
    {
        AdditionalContextUserFragment { key, value, max_tokens: MAX_ADDITIONAL_CONTEXT_VALUE_TOKENS }
    }

    /// A token budget other than the default for the value.
    pub fn with_max_tokens(self, max_tokens: usize) -> (r: Self)
        ensures
            r@ == (FragmentM { max_tokens: max_tokens as nat, ..self@ }),
    {
        let mut r = self;
        r.max_tokens = max_tokens;
        r
    }

    pub fn key(&self) -> (r: &str)
        ensures
            r@ == self@.key,
    {
        self.key.as_str()
    }

    pub fn value(&self) -> (r: &str)
        ensures
            r@ == self@.value,
    {
        self.value.as_str()
    }

    pub fn max_tokens(&self) -> (r: usize)
        ensures
            r == self@.max_tokens,
    {
        self.max_tokens
    }

    pub fn role(&self) -> (r: &'static str)
        ensures
            r@ == "user"@,
    {
        USER_ROLE
    }

    pub fn content_kind(&self) -> (r: String)
        ensures
            r@ == "additional_content."@ + self@.key,
    {
        string_of(&concat_chars(&chars_of(CONTENT_KIND_PREFIX), &chars_of(self.key.as_str())))
    }

    pub fn type_markers() -> (r: (&'static str, &'static str))
        ensures
            r.0@ == "<external_"@,
            r.1@ == ">"@,
    {
        (ADDITIONAL_CONTEXT_START_MARKER_PREFIX, ADDITIONAL_CONTEXT_END_MARKER_SUFFIX)
    }

    pub fn markers(&self) -> (r: (&'static str, &'static str))
        ensures
            r.0@ == "<external_"@,
            r.1@ == ">"@,
    {
        Self::type_markers()
    }

    /// Whether `text` is the text of a user fragment.
    pub fn matches_text(text: &str) -> (r: bool)
        ensures
            r == matches_text_spec(text@),
    {
        let all = chars_of(text);
        let t = trim_range(&all, 0, all.len());
        assert(all@.subrange(0, all@.len() as int) =~= text@);
        let open = chars_of(ADDITIONAL_CONTEXT_START_MARKER_PREFIX);
        if !has_prefix(&t, &open) {
            return false;
        }
        let rest = slice_chars(&t, open.len(), t.len());
        assert(rest@ =~= t@.skip(open@.len() as int));
        let mut i: usize = 0;
        assert(rest@.skip(0) =~= rest@);
        while i < rest.len() && rest[i] != '>'
            invariant
                i <= rest.len(),
                index_of(rest@, '>') == i + index_of(rest@.skip(i as int), '>'),
            decreases rest.len() - i,
        {
            assert(rest@.skip(i as int).drop_first() =~= rest@.skip(i + 1));
            i = i + 1;
        }
        proof {
            assert(rest@.skip(0) =~= rest@);
            if i < rest.len() {
                assert(rest@.skip(i as int)[0] == '>');
            } else {
                assert(rest@.skip(i as int).len() == 0);
            }
        }
        if i >= rest.len() {
            return false;
        }
        let key = slice_chars(&rest, 0, i);
        let tail = slice_chars(&rest, i + 1, rest.len());
        assert(key@ =~= rest@.take(i as int));
        assert(tail@ =~= rest@.skip(i + 1));
        let close = concat_chars(&concat_chars(&chars_of(USER_CLOSE_PREFIX), &key), &chars_of(ADDITIONAL_CONTEXT_END_MARKER_SUFFIX));
        has_suffix(&tail, &close)
    }

    /// The body for the value cut to this fragment's budget.
    pub fn body(&self, cut_value: &str) -> (r: String)
        ensures
            r@ == user_body(self@.key, cut_value@),
    {
        string_of(&user_body_exec(&chars_of(self.key.as_str()), &chars_of(cut_value)))
    }

    /// The message text for the value cut to this fragment's budget.
    pub fn text(&self, cut_value: &str) -> (r: String)
        ensures
            r@ == user_text(self@.key, cut_value@),
    {
        string_of(&user_text_exec(&chars_of(self.key.as_str()), &chars_of(cut_value)))
    }
}

fn user_body_exec(key: &Vec<char>, value: &Vec<char>) -> (r: Vec<char>)
    ensures
        r@ == user_body(key@, value@),
{
    let a = concat_chars(key, &chars_of(ADDITIONAL_CONTEXT_END_MARKER_SUFFIX));
    let b = concat_chars(&a, value);
    let c = concat_chars(&b, &chars_of(USER_CLOSE_PREFIX));
    concat_chars(&c, key)
}

fn user_text_exec(key: &Vec<char>, value: &Vec<char>) -> (r: Vec<char>)
    ensures
        r@ == user_text(key@, value@),
{
    let a = concat_chars(&chars_of(ADDITIONAL_CONTEXT_START_MARKER_PREFIX), &user_body_exec(key, value));
    let r = concat_chars(&a, &chars_of(ADDITIONAL_CONTEXT_END_MARKER_SUFFIX));
    assert(r@ =~= user_text(key@, value@));
    r
}

fn developer_body_exec(key: &Vec<char>, value: &Vec<char>) -> (r: Vec<char>)
    ensures
        r@ == developer_body(key@, value@),
{
    let a = concat_chars(&chars_of("<"), key);
    let b = concat_chars(&a, &chars_of(">"));
    let c = concat_chars(&b, value);
    let d = concat_chars(&c, &chars_of("</"));
    let e = concat_chars(&d, key);
    let r = concat_chars(&e, &chars_of(">"));
    assert(r@ =~= developer_body(key@, value@));
    r
}

/// A value the application supplies as instructions of its own.
#[derive(Debug, Clone, PartialEq, Eq)]
pub struct AdditionalContextDeveloperFragment {
    key: String,
    value: String,
    max_tokens: usize,
}

impl View for AdditionalContextDeveloperFragment {
    type V = FragmentM;

    closed spec fn view(&self) -> FragmentM {
        FragmentM { key: self.key@, value: self.value@, max_tokens: self.max_tokens as nat }
    }
}

impl AdditionalContextDeveloperFragment {
    pub fn new(key: String, value: String) -> (r: Self)
        ensures
            r@ == (FragmentM {
                key: key@,
                value: value@,
                max_tokens: MAX_ADDITIONAL_CONTEXT_VALUE_TOKENS as nat,
            }),
    {
        AdditionalContextDeveloperFragment { key, value, max_tokens: MAX_ADDITIONAL_CONTEXT_VALUE_TOKENS }
    }

    /// A token budget other than the default for the value.
    pub fn with_max_tokens(self, max_tokens: usize) -> (r: Self)
        ensures
            r@ == (FragmentM { max_tokens: max_tokens as nat, ..self@ }),
    {
        let mut r = self;
        r.max_tokens = max_tokens;
        r
    }

    pub fn key(&self) -> (r: &str)
        ensures
            r@ == self@.key,
    {
        self.key.as_str()
    }

    pub fn value(&self) -> (r: &str)
        ensures
            r@ == self@.value,
    {
        self.value.as_str()
    }

    pub fn max_tokens(&self) -> (r: usize)
        ensures
            r == self@.max_tokens,
    {
        self.max_tokens
    }

    pub fn role(&self) -> (r: &'static str)
        ensures
            r@ == "developer"@,
    {
        DEVELOPER_ROLE
    }

    pub fn content_kind(&self) -> (r: String)
        ensures
            r@ == "additional_content."@ + self@.key,
    {
        string_of(&concat_chars(&chars_of(CONTENT_KIND_PREFIX), &chars_of(self.key.as_str())))
    }

    /// A developer fragment carries no markers: its body is its text.
    pub fn type_markers() -> (r: (&'static str, &'static str))
        ensures
            r.0@ == ""@,
            r.1@ == ""@,
    {
        ("", "")
    }

    pub fn markers(&self) -> (r: (&'static str, &'static str))
        ensures
            r.0@ == ""@,
            r.1@ == ""@,
    {
        Self::type_markers()
    }

    /// The body (and message text) for the value cut to this fragment's
    /// budget.
    pub fn body(&self, cut_value: &str) -> (r: String)
        ensures
            r@ == developer_body(self@.key, cut_value@),
    {
        string_of(&developer_body_exec(&chars_of(self.key.as_str()), &chars_of(cut_value)))
    }
}

/// The text of a user fragment is recognised as one, whatever its value,
/// for a key without `>` (the first `>` ends the opening marker).
pub proof fn lemma_user_text_matches(key: Seq<char>, value: Seq<char>)
    requires
        forall|j: int| 0 <= j < key.len() ==> #[trigger] key[j] != '>',
    ensures
        matches_text_spec(user_text(key, value)),
{
    reveal_strlit("<external_");
    reveal_strlit("</external_");
    reveal_strlit(">");
    let open = "<external_"@;
    let close = "</external_"@;
    let gt = ">"@;
    let text = user_text(key, value);
    assert(text =~= open + (key + gt + value + close + key) + gt);
    assert(text[0] == '<');
    assert(text[text.len() - 1] == '>');
    lemma_trim_start(text, 0);
    assert(text.skip(0) =~= text);
    assert(trim_start(text) == text);
    lemma_trim_end(text, text.len() as int);
    assert(text.take(text.len() as int) =~= text);
    assert(trim(text) == text);
    assert(text.take(open.len() as int) =~= open);
    let rest = text.skip(open.len() as int);
    assert(rest =~= key + gt + value + close + key + gt);
    assert(rest[key.len() as int] == '>');
    assert forall|j: int| 0 <= j < key.len() implies rest[j] != '>' by {
        assert(rest[j] == key[j]);
    }
    lemma_index_of_unique(rest, '>', key.len() as int);
    assert(rest.take(key.len() as int) =~= key);
    let tail = rest.skip(key.len() as int + 1);
    assert(tail =~= value + close + key + gt);
    let want = close + key + gt;
    assert(tail.skip(tail.len() - want.len()) =~= want);
}

} // verus!
