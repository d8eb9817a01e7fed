//! The additional context values of a thread, and which of them go into
//! history again.

use vstd::prelude::*;
use crate::additional_context::developer_body;
use crate::additional_context::ends_with;
use crate::additional_context::starts_with;
use crate::additional_context::user_text;
use crate::assoc::lemma_lookup_index;
use crate::assoc::lookup;
use crate::assoc::lemma_lookup_unique;
use crate::assoc::unique_keys;
use crate::text::chars_eq;
use crate::text::chars_of;
use crate::text::concat_chars;
use crate::text::has_prefix;
use crate::text::has_suffix;
use crate::additional_context::AdditionalContextDeveloperFragment;
use crate::additional_context::AdditionalContextUserFragment;

verus! {

/// Who a value comes from.
#[derive(Clone, Copy, Debug, PartialEq, Eq, Structural)]
pub enum AdditionalContextKind {
    /// Shown to the model as user-side context.
    Untrusted,
    /// Given to the model as developer instructions.
    Application,
}

/// One value and where it comes from.
#[derive(Clone, Debug, PartialEq, Eq)]
pub struct AdditionalContextEntry {
    pub value: String,
    pub kind: AdditionalContextKind,
}

pub type EntryM = (Seq<char>, AdditionalContextKind);

/// One part of a message.
#[derive(Clone, Debug, PartialEq, Eq)]
pub enum ContentItem {
    InputText { text: String },
    /// Any other content (images, output text).
    Other,
}

/// One item of history.
#[derive(Clone, Debug, PartialEq, Eq)]
pub enum ResponseItem {
    Message { role: String, content: Vec<ContentItem> },
    /// Any other item (tool calls, reasoning).
    Other,
}

/// Role and text of a message made of one text.
pub open spec fn message_text_spec(item: ResponseItem) -> Option<(Seq<char>, Seq<char>)> {
    match item {
        ResponseItem::Message { role, content } => if content@.len() == 1 {
            match content@[0] {
                ContentItem::InputText { text } => Some((role@, text@)),
                ContentItem::Other => None,
            }
        } else {
            None
        },
        ResponseItem::Other => None,
    }
}

pub open spec fn texts_of(items: Seq<ResponseItem>) -> Seq<Option<(Seq<char>, Seq<char>)>> {
    items.map_values(|i: ResponseItem| message_text_spec(i))
}

/// Role and text of the fragment for `key` with the value cut to `cut`.
pub open spec fn fragment_spec(key: Seq<char>, kind: AdditionalContextKind, cut: Seq<char>) -> (Seq<char>, Seq<char>) {
    match kind {
        AdditionalContextKind::Untrusted => ("user"@, user_text(key, cut)),
        AdditionalContextKind::Application => ("developer"@, developer_body(key, cut)),
    }
}

pub open spec fn store_view(s: Seq<(String, AdditionalContextEntry)>) -> Seq<(Seq<char>, EntryM)> {
    s.map_values(|p: (String, AdditionalContextEntry)| (p.0@, (p.1.value@, p.1.kind)))
}

pub open spec fn strings_view(s: Seq<String>) -> Seq<Seq<char>> {
    s.map_values(|x: String| x@)
}

/// The fragments of the values that differ from the stored ones, in order;
/// `cut[i]` is the `i`-th value cut to the budget.
pub open spec fn merged_spec(
    values: Seq<(Seq<char>, EntryM)>,
    stored: Seq<(Seq<char>, EntryM)>,
    cut: Seq<Seq<char>>,
) -> Seq<Option<(Seq<char>, Seq<char>)>>
    decreases values.len(),
{
    if values.len() == 0 || cut.len() != values.len() {
        seq![]
    } else {
        let rest = merged_spec(values.drop_last(), stored, cut.drop_last());
        let (key, entry) = values.last();
        if lookup(stored, key) == Some(entry) {
            rest
        } else {
            rest.push(Some(fragment_spec(key, entry.1, cut.last())))
        }
    }
}

/// The stored values whose fragment history holds, with their keys.
pub open spec fn recorded_spec(
    values: Seq<(Seq<char>, EntryM)>,
    cut: Seq<Seq<char>>,
    history: Seq<Option<(Seq<char>, Seq<char>)>>,
) -> Seq<(Seq<char>, Option<(Seq<char>, Seq<char>)>)>
    decreases values.len(),
{
    if values.len() == 0 || cut.len() != values.len() {
        seq![]
    } else {
        let rest = recorded_spec(values.drop_last(), cut.drop_last(), history);
        let (key, entry) = values.last();
        let f = fragment_spec(key, entry.1, cut.last());
        if history.contains(Some(f)) {
            rest.push((key, Some(f)))
        } else {
            rest
        }
    }
}

pub open spec fn keyed_view(s: Seq<(String, ResponseItem)>) -> Seq<(Seq<char>, Option<(Seq<char>, Seq<char>)>)> {
    s.map_values(|p: (String, ResponseItem)| (p.0@, message_text_spec(p.1)))
}

/// Whether `item` is a fragment for `key`, whatever its value.
pub open spec fn is_fragment_of_spec(item: ResponseItem, key: Seq<char>) -> bool {
    match message_text_spec(item) {
        Some((role, text)) => if role == "developer"@ {
            starts_with(text, "<"@ + key + ">"@) && ends_with(text, "</"@ + key + ">"@)
        } else if role == "user"@ {
            starts_with(text, "<external_"@ + key + ">"@)
        } else {
            false
        },
        None => false,
    }
}

/// Role and text of a message made of one text.
fn message_text(item: &ResponseItem) -> (r: Option<(Vec<char>, Vec<char>)>)
    ensures
        match r {
            Some((role, text)) => message_text_spec(*item) == Some((role@, text@)),
            None => message_text_spec(*item) is None,
        },
{
    match item {
        ResponseItem::Message { role, content } => {
            if content.len() == 1 {
                match &content[0] {
                    ContentItem::InputText { text } => Some((chars_of(role.as_str()), chars_of(text.as_str()))),
                    ContentItem::Other => None,
                }
            } else {
                None
            }
        },
        ResponseItem::Other => None,
    }
}

fn single_text(role: &str, text: String) -> (r: ResponseItem)
    ensures
        message_text_spec(r) == Some((role@, text@)),
{
    let content = vec![ContentItem::InputText { text }];
    ResponseItem::Message { role: role.to_owned(), content }
}

/// The fragment for `key` and `entry`, its value cut to the budget.
pub fn fragment(key: &String, entry: &AdditionalContextEntry, cut_value: &str) -> (r: ResponseItem)
    ensures
        message_text_spec(r) == Some(fragment_spec(key@, entry.kind, cut_value@)),
{
    match entry.kind {
        AdditionalContextKind::Untrusted => {
            let f = AdditionalContextUserFragment::new(key.clone(), entry.value.clone());
            single_text(f.role(), f.text(cut_value))
        },
        AdditionalContextKind::Application => {
            let f = AdditionalContextDeveloperFragment::new(key.clone(), entry.value.clone());
            single_text(f.role(), f.body(cut_value))
        },
    }
}

fn entry_eq(a: &AdditionalContextEntry, b: &AdditionalContextEntry) -> (r: bool)
    ensures
        r == ((a.value@, a.kind) == (b.value@, b.kind)),
{
    a.value == b.value && a.kind == b.kind
}

fn find_entry(s: &Vec<(String, AdditionalContextEntry)>, k: &String) -> (r: Option<usize>)
    ensures
        match r {
            Some(i) => i < s.len() && lookup(store_view(s@), k@) == Some(store_view(s@)[i as int].1),
            None => lookup(store_view(s@), k@) is None,
        },
{
    let mut i: usize = 0;
    while i < s.len()
        invariant
            i <= s.len(),
            forall|j: int| 0 <= j < i ==> #[trigger] store_view(s@)[j].0 != k@,
        decreases s.len() - i,
    {
        if s[i].0 == *k {
            proof {
                lemma_lookup_index(store_view(s@), k@, i as int);
            }
            return Some(i);
        }
        i = i + 1;
    }
    proof {
        lemma_lookup_index(store_view(s@), k@, i as int);
    }
    None
}

/// The values of a thread by key, as last submitted.
#[derive(Debug, PartialEq, Eq)]
pub struct AdditionalContextStore {
    pub values: Vec<(String, AdditionalContextEntry)>,
}

impl AdditionalContextStore {
    pub fn new() -> (r: Self)
        ensures
            r.values@.len() == 0,
    {
        AdditionalContextStore { values: Vec::new() }
    }

    /// Takes `values` as the thread's values and returns the fragments of
    /// those that differ from what was stored; `cut[i]` is the `i`-th value
    /// cut to the budget. Merging the same values (one per key) a second
    /// time sends nothing.
    pub fn merge(&mut self, values: Vec<(String, AdditionalContextEntry)>, cut: &Vec<String>) -> (r: Vec<ResponseItem>)
        requires
            cut.len() == values.len(),
        ensures
            store_view(final(self).values@) == store_view(values@),
            texts_of(r@) == merged_spec(store_view(values@), store_view(old(self).values@), strings_view(cut@)),
            unique_keys(store_view(values@)) && store_view(old(self).values@) == store_view(values@) ==> r@.len() == 0,
    {
        proof {
            if unique_keys(store_view(values@)) && store_view(self.values@) == store_view(values@) {
                lemma_merge_again_sends_nothing(store_view(values@), strings_view(cut@));
            }
        }
        let mut r: Vec<ResponseItem> = Vec::new();
        let ghost vs = store_view(values@);
        let ghost st = store_view(self.values@);
        let ghost cv = strings_view(cut@);
        let mut i: usize = 0;
        assert(texts_of(r@) =~= seq![]);
        while i < values.len()
            invariant
                i <= values.len(),
                cut.len() == values.len(),
                vs == store_view(values@),
                st == store_view(self.values@),
                cv == strings_view(cut@),
                texts_of(r@) == merged_spec(vs.take(i as int), st, cv.take(i as int)),
            decreases values.len() - i,
        {
            proof {
                assert(vs.take(i + 1).drop_last() =~= vs.take(i as int));
                assert(cv.take(i + 1).drop_last() =~= cv.take(i as int));
                assert(vs.take(i + 1).last() == vs[i as int]);
                assert(cv.take(i + 1).last() == cv[i as int]);
            }
            let same = match find_entry(&self.values, &values[i].0) {
                Some(j) => entry_eq(&self.values[j].1, &values[i].1),
                None => false,
            };
            if !same {
                let ghost old_r = r@;
                let item = fragment(&values[i].0, &values[i].1, cut[i].as_str());
                r.push(item);
                assert(texts_of(r@) =~= texts_of(old_r).push(message_text_spec(item)));
            }
            i = i + 1;
        }
        assert(vs.take(values.len() as int) =~= vs);
        assert(cv.take(values.len() as int) =~= cv);
        self.values = values;
        r
    }

    /// The stored values whose fragment history holds, rendered again for a
    /// history that will not hold them (compaction), with their keys.
    /// `cut[i]` is the `i`-th stored value cut to the budget. A value
    /// submitted but not recorded yet is left out: its own fragment is on
    /// the way.
    pub fn render_recorded(&self, cut: &Vec<String>, history: &Vec<ResponseItem>) -> (r: Vec<(String, ResponseItem)>)
        requires
            cut.len() == self.values.len(),
        ensures
            keyed_view(r@) == recorded_spec(store_view(self.values@), strings_view(cut@), texts_of(history@)),
            forall|i: int|
                0 <= i < self.values@.len() && texts_of(history@).contains(
                    Some(#[trigger] fragment_spec(self.values@[i].0@, self.values@[i].1.kind, cut@[i]@)),
                ) ==> keyed_view(r@).contains(
                    (self.values@[i].0@, Some(fragment_spec(self.values@[i].0@, self.values@[i].1.kind, cut@[i]@))),
                ),
    {

        let ghost vs = store_view(self.values@);
        let ghost cv = strings_view(cut@);
        let ghost hs = texts_of(history@);
        let mut recorded: Vec<(Vec<char>, Vec<char>)> = Vec::new();
        let mut h: usize = 0;
        while h < history.len()
            invariant
                h <= history.len(),
                hs == texts_of(history@),
                forall|j: int| 0 <= j < recorded@.len() ==> hs.take(h as int).contains(Some((#[trigger] recorded@[j].0@, recorded@[j].1@))),
                forall|j: int| 0 <= j < h ==> (#[trigger] hs[j]) is Some ==> exists|k: int|
                    0 <= k < recorded@.len() && Some((recorded@[k].0@, recorded@[k].1@)) == hs[j],
            decreases history.len() - h,
        {
            let ghost old_rec = recorded@;
            match message_text(&history[h]) {
                Some(pair) => {
                    recorded.push(pair);
                    assert(recorded@[old_rec.len() as int] == pair);
                },
                None => {},
            }
            proof {
                assert forall|j: int| 0 <= j < recorded@.len() implies hs.take(h + 1).contains(
                    Some((#[trigger] recorded@[j].0@, recorded@[j].1@)),
                ) by {
                    if j < old_rec.len() {
                        assert(recorded@[j] == old_rec[j]);
                        let w = choose|w: int| 0 <= w < hs.take(h as int).len() && hs.take(h as int)[w] == Some((old_rec[j].0@, old_rec[j].1@));
                        assert(hs.take(h + 1)[w] == hs.take(h as int)[w]);
                    } else {
                        assert(hs.take(h + 1)[h as int] == hs[h as int]);
                    }
                }
                assert forall|j: int| 0 <= j < h + 1 && (#[trigger] hs[j]) is Some implies exists|k: int|
                    0 <= k < recorded@.len() && Some((recorded@[k].0@, recorded@[k].1@)) == hs[j] by {
                    if j < h {
                        let k = choose|k: int| 0 <= k < old_rec.len() && Some((old_rec[k].0@, old_rec[k].1@)) == hs[j];
                        assert(recorded@[k] == old_rec[k]);
                    } else {
                        assert(Some((recorded@[old_rec.len() as int].0@, recorded@[old_rec.len() as int].1@)) == hs[j]);
                    }
                }
            }
            h = h + 1;
        }
        assert(hs.take(history.len() as int) =~= hs);
        let mut r: Vec<(String, ResponseItem)> = Vec::new();
        let mut i: usize = 0;
        assert(keyed_view(r@) =~= seq![]);
        while i < self.values.len()
            invariant
                i <= self.values.len(),
                cut.len() == self.values.len(),
                vs == store_view(self.values@),
                cv == strings_view(cut@),
                hs == texts_of(history@),
                forall|j: int| 0 <= j < recorded@.len() ==> hs.contains(Some((#[trigger] recorded@[j].0@, recorded@[j].1@))),
                forall|j: int| 0 <= j < hs.len() ==> (#[trigger] hs[j]) is Some ==> exists|k: int|
                    0 <= k < recorded@.len() && Some((recorded@[k].0@, recorded@[k].1@)) == hs[j],
                keyed_view(r@) == recorded_spec(vs.take(i as int), cv.take(i as int), hs),
            decreases self.values.len() - i,
        {
            proof {
                assert(vs.take(i + 1).drop_last() =~= vs.take(i as int));
                assert(cv.take(i + 1).drop_last() =~= cv.take(i as int));
                assert(vs.take(i + 1).last() == vs[i as int]);
                assert(cv.take(i + 1).last() == cv[i as int]);
            }
            let item = fragment(&self.values[i].0, &self.values[i].1, cut[i].as_str());
            let ghost f = fragment_spec(vs[i as int].0, vs[i as int].1.1, cv[i as int]);
            let mut found = false;
            match message_text(&item) {
                Some((role, text)) => {
                    let mut k: usize = 0;
                    while k < recorded.len()
                        invariant
                            k <= recorded.len(),
                            Some((role@, text@)) == Some(f),
                            found ==> hs.contains(Some(f)),
                            !found ==> forall|j: int| 0 <= j < k ==> Some((#[trigger] recorded@[j].0@, recorded@[j].1@)) != Some(f),
                            forall|j: int| 0 <= j < recorded@.len() ==> hs.contains(Some((#[trigger] recorded@[j].0@, recorded@[j].1@))),
                        decreases recorded.len() - k,
                    {
                        if !found && chars_eq(&recorded[k].0, &role) && chars_eq(&recorded[k].1, &text) {
                            found = true;
                        }
                        k = k + 1;
                    }
                    proof {
                        if !found && hs.contains(Some(f)) {
                            let w = choose|w: int| 0 <= w < hs.len() && hs[w] == Some(f);
                            assert(hs[w] is Some);
                            let kk = choose|kk: int| 0 <= kk < recorded@.len() && Some((recorded@[kk].0@, recorded@[kk].1@)) == hs[w];
                            assert(Some((recorded@[kk].0@, recorded@[kk].1@)) != Some(f));
                        }
                    }
                },
                None => {},
            }
            if found {
                let ghost old_r = r@;
                r.push((self.values[i].0.clone(), item));
                assert(keyed_view(r@) =~= keyed_view(old_r).push((vs[i as int].0, Some(f))));
            }
            i = i + 1;
        }
        assert(vs.take(self.values.len() as int) =~= vs);
        assert(cv.take(self.values.len() as int) =~= cv);
        proof {
            lemma_recorded_values_come_back(vs, cv, hs);
            assert forall|i: int|
                0 <= i < self.values@.len() && hs.contains(
                    Some(#[trigger] fragment_spec(self.values@[i].0@, self.values@[i].1.kind, cut@[i]@)),
                ) implies keyed_view(r@).contains(
                (self.values@[i].0@, Some(fragment_spec(self.values@[i].0@, self.values@[i].1.kind, cut@[i]@))),
            ) by {
                assert(vs[i] == (self.values@[i].0@, (self.values@[i].1.value@, self.values@[i].1.kind)));
                assert(cv[i] == cut@[i]@);
                assert(hs.contains(Some(fragment_spec(vs[i].0, vs[i].1.1, cv[i]))));
            }
        }
        r
    }
}

/// Whether `item` is a fragment for `key`, whatever its value.
pub fn is_fragment_of(item: &ResponseItem, key: &str) -> (r: bool)
    ensures
        r == is_fragment_of_spec(*item, key@),
{
    match message_text(item) {
        Some((role, text)) => {
            let k = chars_of(key);
            if chars_eq(&role, &chars_of(DEVELOPER)) {
                let open = concat_chars(&concat_chars(&chars_of("<"), &k), &chars_of(">"));
                let close = concat_chars(&concat_chars(&chars_of("</"), &k), &chars_of(">"));
                has_prefix(&text, &open) && has_suffix(&text, &close)
            } else if chars_eq(&role, &chars_of(USER)) {
                let open = concat_chars(&concat_chars(&chars_of("<external_"), &k), &chars_of(">"));
                has_prefix(&text, &open)
            } else {
                false
            }
        },
        None => false,
    }
}

const DEVELOPER: &'static str = "developer";

const USER: &'static str = "user";


/// Merging the values already stored sends nothing: a value is sent again
/// only when it changes.
pub proof fn lemma_merge_again_sends_nothing(values: Seq<(Seq<char>, EntryM)>, cut: Seq<Seq<char>>)
    requires
        unique_keys(values),
    ensures
        merged_spec(values, values, cut).len() == 0,
{
    assert forall|i: int| 0 <= i < values.len() implies lookup(values, #[trigger] values[i].0) == Some(
        values[i].1,
    ) by {
        lemma_lookup_unique(values, i);
    }
    lemma_merge_unchanged(values, values, cut);
}

proof fn lemma_merge_unchanged(
    values: Seq<(Seq<char>, EntryM)>,
    stored: Seq<(Seq<char>, EntryM)>,
    cut: Seq<Seq<char>>,
)
    requires
        forall|i: int| 0 <= i < values.len() ==> lookup(stored, #[trigger] values[i].0) == Some(values[i].1),
    ensures
        merged_spec(values, stored, cut).len() == 0,
    decreases values.len(),
{
    if values.len() > 0 && cut.len() == values.len() {
        assert(lookup(stored, values[values.len() - 1].0) == Some(values[values.len() - 1].1));
        lemma_merge_unchanged(values.drop_last(), stored, cut.drop_last());
    }
}

/// A value is sent exactly when it is new or changed: each such value's
/// fragment is among those merged, and each fragment merged is that of such
/// a value.
pub proof fn lemma_merge_sends_changes(
    values: Seq<(Seq<char>, EntryM)>,
    stored: Seq<(Seq<char>, EntryM)>,
    cut: Seq<Seq<char>>,
)
    requires
        cut.len() == values.len(),
    ensures
        forall|i: int|
            0 <= i < values.len() && lookup(stored, #[trigger] values[i].0) != Some(values[i].1) ==> merged_spec(
                values,
                stored,
                cut,
            ).contains(Some(fragment_spec(values[i].0, values[i].1.1, cut[i]))),
        forall|j: int|
            0 <= j < merged_spec(values, stored, cut).len() ==> exists|i: int|
                0 <= i < values.len() && lookup(stored, values[i].0) != Some(values[i].1)
                    && #[trigger] merged_spec(values, stored, cut)[j] == Some(
                    fragment_spec(values[i].0, values[i].1.1, cut[i]),
                ),
    decreases values.len(),
{
    if values.len() > 0 {
        let vs = values.drop_last();
        let cs = cut.drop_last();
        lemma_merge_sends_changes(vs, stored, cs);
        let rest = merged_spec(vs, stored, cs);
        let m = merged_spec(values, stored, cut);
        let n = values.len() - 1;
        assert forall|i: int|
            0 <= i < values.len() && lookup(stored, #[trigger] values[i].0) != Some(values[i].1) implies m.contains(
            Some(fragment_spec(values[i].0, values[i].1.1, cut[i])),
        ) by {
            if i < n {
                assert(vs[i] == values[i]);
                assert(cs[i] == cut[i]);
                let k = choose|k: int| 0 <= k < rest.len() && rest[k] == Some(fragment_spec(vs[i].0, vs[i].1.1, cs[i]));
                assert(m[k] == rest[k]);
            } else {
                assert(m[m.len() - 1] == Some(fragment_spec(values[i].0, values[i].1.1, cut[i])));
            }
        }
        assert forall|j: int| 0 <= j < m.len() implies exists|i: int|
            0 <= i < values.len() && lookup(stored, values[i].0) != Some(values[i].1) && #[trigger] m[j] == Some(
                fragment_spec(values[i].0, values[i].1.1, cut[i]),
            ) by {
            if j < rest.len() {
                assert(m[j] == rest[j]);
                let i = choose|i: int|
                    0 <= i < vs.len() && lookup(stored, vs[i].0) != Some(vs[i].1) && #[trigger] rest[j] == Some(
                        fragment_spec(vs[i].0, vs[i].1.1, cs[i]),
                    );
                assert(vs[i] == values[i] && cs[i] == cut[i]);
            } else {
                assert(m[j] == Some(fragment_spec(values[n].0, values[n].1.1, cut[n])));
            }
        }
    }
}

/// After compaction every stored value whose fragment history holds is
/// rendered again, whatever its kind: for each stored value, if history
/// holds its exact fragment (role and text), that fragment comes back with
/// its key; and nothing else comes back.
pub proof fn lemma_recorded_values_come_back(
    values: Seq<(Seq<char>, EntryM)>,
    cut: Seq<Seq<char>>,
    history: Seq<Option<(Seq<char>, Seq<char>)>>,
)
    requires
        cut.len() == values.len(),
    ensures
        forall|i: int|
            0 <= i < values.len() && history.contains(Some(#[trigger] fragment_spec(values[i].0, values[i].1.1, cut[i])))
                ==> recorded_spec(values, cut, history).contains(
                (values[i].0, Some(fragment_spec(values[i].0, values[i].1.1, cut[i]))),
            ),
        forall|j: int|
            0 <= j < recorded_spec(values, cut, history).len() ==> exists|i: int|
                0 <= i < values.len() && #[trigger] recorded_spec(values, cut, history)[j] == (
                    values[i].0,
                    Some(fragment_spec(values[i].0, values[i].1.1, cut[i])),
                ) && history.contains(Some(fragment_spec(values[i].0, values[i].1.1, cut[i]))),
    decreases values.len(),
{
    if values.len() > 0 {
        let vs = values.drop_last();
        let cs = cut.drop_last();
        lemma_recorded_values_come_back(vs, cs, history);
        let rest = recorded_spec(vs, cs, history);
        let r = recorded_spec(values, cut, history);
        let n = values.len() - 1;
        assert forall|i: int|
            0 <= i < values.len() && history.contains(Some(#[trigger] fragment_spec(values[i].0, values[i].1.1, cut[i])))
                implies r.contains((values[i].0, Some(fragment_spec(values[i].0, values[i].1.1, cut[i])))) by {
            if i < n {
                assert(vs[i] == values[i] && cs[i] == cut[i]);
                assert(history.contains(Some(fragment_spec(vs[i].0, vs[i].1.1, cs[i]))));
                let k = choose|k: int| 0 <= k < rest.len() && rest[k] == (vs[i].0, Some(fragment_spec(vs[i].0, vs[i].1.1, cs[i])));
                assert(r[k] == rest[k]);
            } else {
                assert(r[r.len() - 1] == (values[i].0, Some(fragment_spec(values[i].0, values[i].1.1, cut[i]))));
            }
        }
        assert forall|j: int| 0 <= j < r.len() implies exists|i: int|
            0 <= i < values.len() && #[trigger] r[j] == (values[i].0, Some(fragment_spec(values[i].0, values[i].1.1, cut[i])))
                && history.contains(Some(fragment_spec(values[i].0, values[i].1.1, cut[i]))) by {
            if j < rest.len() {
                assert(r[j] == rest[j]);
                let i = choose|i: int|
                    0 <= i < vs.len() && #[trigger] rest[j] == (vs[i].0, Some(fragment_spec(vs[i].0, vs[i].1.1, cs[i])))
                        && history.contains(Some(fragment_spec(vs[i].0, vs[i].1.1, cs[i])));
                assert(vs[i] == values[i] && cs[i] == cut[i]);
            } else {
                assert(r[j] == (values[n].0, Some(fragment_spec(values[n].0, values[n].1.1, cut[n]))));
            }
        }
    }
}

} // verus!
