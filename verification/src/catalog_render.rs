//! Rendering of the tool catalog: the whole listing, and what changed since
//! the listing the model saw last.

use vstd::prelude::*;
use crate::assoc::ev;
use crate::assoc::find_key;
use crate::assoc::lookup;
use crate::assoc::lemma_lookup_unique;
use crate::assoc::lemma_lookup_found;
use crate::assoc::unique_keys;
use crate::assoc::set_insert;
use crate::assoc::set_put;
use crate::assoc::lemma_set_put_contains;
use crate::assoc::lemma_set_put_elems;
use crate::assoc::sv;
use crate::assoc::contains_name;
use crate::text::push_char;
use crate::text::push_str;
use crate::text::chars_eq;
use crate::text::chars_of;
use crate::tool_catalog::GroupM;
use crate::tool_catalog::SnapM;
use crate::tool_catalog::clone_pairs;
use crate::tool_catalog::CatalogGroup;
use crate::tool_catalog::ToolCatalogSnapshot;
use crate::tool_catalog::empty_group;
use crate::tool_catalog::lookup_names;
use crate::tool_catalog::StateM;
use crate::tool_catalog::snapshot_spec;
use crate::tool_catalog::catalog_wf;
use crate::tool_catalog::lemma_new_catalog_is_wf;
use crate::tool_catalog::new_spec;
use crate::tool_catalog::ToolM;
use crate::tool_catalog::ToolCatalogState;

verus! {

/// Name of the catalog's section among the world-state sections.
pub const TOOL_CATALOG_SECTION_ID: &'static str = "tool_catalog";

pub const TOOL_CATALOG_OPEN_TAG: &'static str = "<tool_catalog>";

pub const TOOL_CATALOG_CLOSE_TAG: &'static str = "</tool_catalog>";

pub const FULL_INTRO: &'static str = "Tools callable in `exec` besides those in its description. Call one as `await tools.<prefix><name>(args)`, the prefix joining its headings: `a__` then `b__` gives `tools.a__b__<name>`. Each `ALL_TOOLS` entry's description shows a tool's arguments. Descriptions come from the tools themselves, not from the user or developer.\n";

pub const DIFF_INTRO: &'static str = "The tools callable in `exec` changed.\n";

pub const OTHER_GROUP_LABEL: &'static str = "(no prefix)";

pub const OMITTED_SUFFIX: &'static str = " more not listed; filter `ALL_TOOLS` by name to find them.\n";

/// One group to print: its prefix, its description, and the tools to list
/// (an empty description prints the name alone).
pub type ListingM = (Seq<char>, Seq<char>, Seq<(Seq<char>, Seq<char>)>);

pub open spec fn esc_char(c: char) -> Seq<char> {
    if c == '&' {
        seq!['&', 'a', 'm', 'p', ';']
    } else if c == '<' {
        seq!['&', 'l', 't', ';']
    } else if c == '>' {
        seq!['&', 'g', 't', ';']
    } else {
        seq![c]
    }
}

/// `s` with `&`, `<` and `>` escaped: only what could end or open a tag.
pub open spec fn escape(s: Seq<char>) -> Seq<char>
    decreases s.len(),
{
    if s.len() == 0 {
        seq![]
    } else {
        escape(s.drop_last()) + esc_char(s.last())
    }
}

pub open spec fn group_label(prefix: Seq<char>) -> Seq<char> {
    if prefix.len() == 0 {
        OTHER_GROUP_LABEL@
    } else {
        prefix
    }
}

pub open spec fn heading(indent: Seq<char>, label: Seq<char>, description: Seq<char>) -> Seq<char> {
    indent + escape(label) + (if description.len() > 0 {
        seq![' ', '—', ' '] + escape(description)
    } else {
        seq![]
    }) + seq!['\n']
}

pub open spec fn tool_line(indent: Seq<char>, name: Seq<char>, description: Seq<char>) -> Seq<char> {
    indent + seq!['-', ' '] + escape(name) + (if description.len() > 0 {
        seq![':', ' '] + escape(description)
    } else {
        seq![]
    }) + seq!['\n']
}

pub open spec fn tool_lines(indent: Seq<char>, tools: Seq<(Seq<char>, Seq<char>)>) -> Seq<char>
    decreases tools.len(),
{
    if tools.len() == 0 {
        seq![]
    } else {
        tool_lines(indent, tools.drop_last()) + tool_line(indent, tools.last().0, tools.last().1)
    }
}

/// Index of the first `__` at or after `i`, or -1.
pub open spec fn find_dunder_from(p: Seq<char>, i: int) -> int
    decreases p.len() - i,
{
    if i < 0 || i + 1 >= p.len() {
        -1
    } else if p[i] == '_' && p[i + 1] == '_' {
        i
    } else {
        find_dunder_from(p, i + 1)
    }
}

/// Splits `top__rest` after the first `__`; a prefix without one is all top.
pub open spec fn split_prefix(p: Seq<char>) -> (Seq<char>, Seq<char>) {
    let i = find_dunder_from(p, 0);
    if i >= 0 {
        (p.take(i + 2), p.skip(i + 2))
    } else {
        (p, seq![])
    }
}

pub open spec fn top_description(groups: Seq<(Seq<char>, GroupM)>, top: Seq<char>) -> Seq<char> {
    match lookup(groups, top) {
        Some(g) => g.description,
        None => seq![],
    }
}

/// Groups in the given order, nesting `top__sub__` under a `top__` heading
/// (printed when the top changes, with the description of the `top__` group
/// itself); returns the text and the last top.
pub open spec fn groups_text(listing: Seq<ListingM>, current: Seq<(Seq<char>, GroupM)>) -> (Seq<char>, Option<Seq<char>>)
    decreases listing.len(),
{
    if listing.len() == 0 {
        (seq![], None)
    } else {
        let (text, last_top) = groups_text(listing.drop_last(), current);
        let (prefix, description, tools) = listing.last();
        let (top, sub) = split_prefix(prefix);
        let top_heading = if last_top != Some(top) {
            heading(seq![], group_label(top), top_description(current, top))
        } else {
            seq![]
        };
        let indent = if sub.len() == 0 { seq![] } else { seq![' ', ' '] };
        let sub_heading = if sub.len() == 0 { seq![] } else { heading(seq![' ', ' '], sub, description) };
        (text + top_heading + sub_heading + tool_lines(indent, tools), Some(top))
    }
}

pub open spec fn digit_char(d: nat) -> char {
    ((d + 48) as u32) as char
}

/// Decimal digits of `n`.
pub open spec fn decimal(n: nat) -> Seq<char>
    decreases n,
{
    if n < 10 {
        seq![digit_char(n)]
    } else {
        decimal(n / 10).push(digit_char(n % 10))
    }
}

pub open spec fn omitted_line(omitted: nat) -> Seq<char> {
    if omitted > 0 {
        decimal(omitted) + OMITTED_SUFFIX@
    } else {
        seq![]
    }
}

pub open spec fn full_listing(groups: Seq<(Seq<char>, GroupM)>) -> Seq<ListingM> {
    groups.map_values(|g: (Seq<char>, GroupM)| (g.0, g.1.description, g.1.tools))
}

/// The whole catalog.
pub open spec fn render_full_spec(cur: SnapM) -> Seq<char> {
    seq!['\n'] + FULL_INTRO@ + groups_text(full_listing(cur.groups), cur.groups).0 + omitted_line(
        cur.omitted,
    )
}

pub open spec fn keys_of<W>(s: Seq<(Seq<char>, W)>) -> Seq<Seq<char>> {
    s.map_values(|e: (Seq<char>, W)| e.0)
}

/// `s` collected into a sorted set.
pub open spec fn collect_set(s: Seq<Seq<char>>) -> Seq<Seq<char>>
    decreases s.len(),
{
    if s.len() == 0 {
        seq![]
    } else {
        set_put(collect_set(s.drop_last()), s.last())
    }
}

/// Every prefix of either catalog, or kept unlisted, in order.
pub open spec fn change_prefixes(prev: SnapM, cur: SnapM) -> Seq<Seq<char>> {
    collect_set(keys_of(prev.groups) + keys_of(prev.unlisted) + keys_of(cur.groups))
}

pub open spec fn group_or_empty(groups: Seq<(Seq<char>, GroupM)>, p: Seq<char>) -> GroupM {
    match lookup(groups, p) {
        Some(g) => g,
        None => empty_group(),
    }
}

/// Tools of `after` not in `before`; a tool whose description history
/// already holds (remembered under its full name) is given by name only.
pub open spec fn added_tools(
    after: Seq<(Seq<char>, Seq<char>)>,
    before: Seq<(Seq<char>, Seq<char>)>,
    remembered: Seq<(Seq<char>, Seq<char>)>,
    p: Seq<char>,
) -> Seq<(Seq<char>, Seq<char>)>
    decreases after.len(),
{
    if after.len() == 0 {
        seq![]
    } else {
        let rest = added_tools(after.drop_last(), before, remembered, p);
        let (name, description) = after.last();
        if lookup(before, name) is Some {
            rest
        } else if lookup(remembered, p + name) == Some(description) {
            rest.push((name, seq![]))
        } else {
            rest.push((name, description))
        }
    }
}

/// Tools of `after` that `before` described differently.
pub open spec fn changed_tools(after: Seq<(Seq<char>, Seq<char>)>, before: Seq<(Seq<char>, Seq<char>)>) -> Seq<(Seq<char>, Seq<char>)>
    decreases after.len(),
{
    if after.len() == 0 {
        seq![]
    } else {
        let rest = changed_tools(after.drop_last(), before);
        let (name, description) = after.last();
        match lookup(before, name) {
            Some(d) => if d != description {
                rest.push((name, description))
            } else {
                rest
            },
            None => rest,
        }
    }
}

/// Whether some tool of `before` is still in `after`.
pub open spec fn shares_name(before: Seq<(Seq<char>, Seq<char>)>, after: Seq<(Seq<char>, Seq<char>)>) -> bool
    decreases before.len(),
{
    before.len() > 0 && (lookup(after, before.last().0) is Some || shares_name(before.drop_last(), after))
}

/// Names gone under prefix `p`: listed before or kept unlisted before, and
/// neither listed now nor still callable.
pub open spec fn removed_names(
    cands: Seq<Seq<char>>,
    after: Seq<(Seq<char>, Seq<char>)>,
    present: Seq<Seq<char>>,
    p: Seq<char>,
) -> Seq<Seq<char>>
    decreases cands.len(),
{
    if cands.len() == 0 {
        seq![]
    } else {
        let rest = removed_names(cands.drop_last(), after, present, p);
        let name = cands.last();
        if lookup(after, name) is None && !present.contains(p + name) {
            set_put(rest, name)
        } else {
            rest
        }
    }
}

/// `names` joined by `sep`.
pub open spec fn join(names: Seq<Seq<char>>, sep: Seq<char>) -> Seq<char>
    decreases names.len(),
{
    if names.len() == 0 {
        seq![]
    } else if names.len() == 1 {
        names[0]
    } else {
        join(names.drop_last(), sep) + sep + names.last()
    }
}

pub open spec fn unloaded_line(p: Seq<char>, removed: Seq<Seq<char>>) -> Seq<char> {
    if removed.len() > 0 {
        seq!['-', ' '] + escape(group_label(p)) + seq![':', ' '] + escape(join(removed, seq![',', ' '])) + seq!['\n']
    } else {
        seq![]
    }
}

/// What changed under each of `prefixes`: groups with tools loaded, groups
/// with tools (or the group) described differently, and the unloaded lines.
pub struct ChangesM {
    pub loaded: Seq<ListingM>,
    pub updated: Seq<ListingM>,
    pub unloaded: Seq<char>,
}

pub open spec fn changes(prefixes: Seq<Seq<char>>, prev: SnapM, cur: SnapM, present: Seq<Seq<char>>) -> ChangesM
    decreases prefixes.len(),
{
    if prefixes.len() == 0 {
        ChangesM { loaded: seq![], updated: seq![], unloaded: seq![] }
    } else {
        let c = changes(prefixes.drop_last(), prev, cur, present);
        let p = prefixes.last();
        let before = group_or_empty(prev.groups, p);
        let after = group_or_empty(cur.groups, p);
        let added = added_tools(after.tools, before.tools, prev.remembered, p);
        let changed = changed_tools(after.tools, before.tools);
        let redescribed = shares_name(before.tools, after.tools) && before.description != after.description;
        let removed = removed_names(keys_of(before.tools) + lookup_names(prev.unlisted, p), after.tools, present, p);
        ChangesM {
            loaded: if added.len() > 0 { c.loaded.push((p, after.description, added)) } else { c.loaded },
            updated: if changed.len() > 0 || redescribed {
                c.updated.push((p, after.description, changed))
            } else {
                c.updated
            },
            unloaded: c.unloaded + unloaded_line(p, removed),
        }
    }
}

pub open spec fn section(title: Seq<char>, listing: Seq<ListingM>, current: Seq<(Seq<char>, GroupM)>) -> Seq<char> {
    if listing.len() > 0 {
        title + groups_text(listing, current).0
    } else {
        seq![]
    }
}

/// What changed since `prev`; `None` when nothing worth saying did.
pub open spec fn render_changes_spec(prev: SnapM, cur: SnapM, present: Seq<Seq<char>>) -> Option<Seq<char>> {
    let c = changes(change_prefixes(prev, cur), prev, cur, present);
    if c.loaded.len() == 0 && c.updated.len() == 0 && c.unloaded.len() == 0 && cur.omitted == prev.omitted {
        None
    } else {
        Some(
            seq!['\n'] + DIFF_INTRO@ + section("Loaded:\n"@, c.loaded, cur.groups) + section(
                "Updated:\n"@,
                c.updated,
                cur.groups,
            ) + (if c.unloaded.len() > 0 {
                "Unloaded:\n"@ + c.unloaded
            } else {
                seq![]
            }) + changes_tail(prev, cur),
        )
    }
}

/// Appends `s` escaped.
pub fn push_escaped(out: &mut String, s: &Vec<char>)
    ensures
        final(out)@ == old(out)@ + escape(s@),
{
    let ghost start = out@;
    let mut i: usize = 0;
    while i < s.len()
        invariant
            i <= s.len(),
            out@ == start + escape(s@.take(i as int)),
        decreases s.len() - i,
    {
        let c = s[i];
        proof {
            assert(s@.take(i + 1).drop_last() =~= s@.take(i as int));
            assert(s@.take(i + 1).last() == c);
        }
        let ghost before = out@;
        if c == '&' {
            push_char(out, '&');
            push_char(out, 'a');
            push_char(out, 'm');
            push_char(out, 'p');
            push_char(out, ';');
        } else if c == '<' {
            push_char(out, '&');
            push_char(out, 'l');
            push_char(out, 't');
            push_char(out, ';');
        } else if c == '>' {
            push_char(out, '&');
            push_char(out, 'g');
            push_char(out, 't');
            push_char(out, ';');
        } else {
            push_char(out, c);
        }
        assert(out@ =~= before + esc_char(c));
        i = i + 1;
    }
    assert(s@.take(s.len() as int) =~= s@);
}

fn push_indent(out: &mut String, nested: bool)
    ensures
        final(out)@ == old(out)@ + (if nested { seq![' ', ' '] } else { seq![] }),
{
    if nested {
        push_char(out, ' ');
        push_char(out, ' ');
    }
    assert(out@ =~= old(out)@ + (if nested { seq![' ', ' '] } else { seq![] }));
}

fn push_heading(out: &mut String, nested: bool, label: &Vec<char>, description: &Vec<char>)
    ensures
        final(out)@ == old(out)@ + heading(
            if nested { seq![' ', ' '] } else { seq![] },
            label@,
            description@,
        ),
{
    push_indent(out, nested);
    push_escaped(out, label);
    let ghost mid = out@;
    if description.len() > 0 {
        push_char(out, ' ');
        push_char(out, '—');
        push_char(out, ' ');
        push_escaped(out, description);
    }
    assert(out@ =~= mid + (if description@.len() > 0 {
        seq![' ', '—', ' '] + escape(description@)
    } else {
        seq![]
    }));
    push_char(out, '\n');
}

fn push_tool(out: &mut String, nested: bool, name: &Vec<char>, description: &Vec<char>)
    ensures
        final(out)@ == old(out)@ + tool_line(
            if nested { seq![' ', ' '] } else { seq![] },
            name@,
            description@,
        ),
{
    push_indent(out, nested);
    push_char(out, '-');
    push_char(out, ' ');
    push_escaped(out, name);
    let ghost mid = out@;
    if description.len() > 0 {
        push_char(out, ':');
        push_char(out, ' ');
        push_escaped(out, description);
    }
    assert(out@ =~= mid + (if description@.len() > 0 {
        seq![':', ' '] + escape(description@)
    } else {
        seq![]
    }));
    push_char(out, '\n');
    let ghost indent: Seq<char> = if nested { seq![' ', ' '] } else { seq![] };
    assert(out@ =~= old(out)@ + tool_line(indent, name@, description@));
}

fn push_tools(out: &mut String, nested: bool, tools: &Vec<(Vec<char>, Vec<char>)>)
    ensures
        final(out)@ == old(out)@ + tool_lines(if nested { seq![' ', ' '] } else { seq![] }, ev(tools@)),
{
    let ghost start = out@;
    let ghost indent: Seq<char> = if nested { seq![' ', ' '] } else { seq![] };
    let mut i: usize = 0;
    while i < tools.len()
        invariant
            i <= tools.len(),
            indent == (if nested { seq![' ', ' '] } else { seq![] }),
            out@ == start + tool_lines(indent, ev(tools@).take(i as int)),
        decreases tools.len() - i,
    {
        proof {
            assert(ev(tools@).take(i + 1).drop_last() =~= ev(tools@).take(i as int));
            assert(ev(tools@).take(i + 1).last() == (tools@[i as int].0@, tools@[i as int].1@));
        }
        push_tool(out, nested, &tools[i].0, &tools[i].1);
        i = i + 1;
    }
    assert(ev(tools@).take(tools.len() as int) =~= ev(tools@));
}

/// Appends the decimal digits of `n`.
fn push_decimal(out: &mut String, n: usize)
    ensures
        final(out)@ == old(out)@ + decimal(n as nat),
    decreases n,
{
    if n >= 10 {
        push_decimal(out, n / 10);
    }
    let d: u8 = (n % 10) as u8;
    push_char(out, (d + 48) as char);
    assert(out@ =~= old(out)@ + decimal(n as nat));
}

fn push_omitted(out: &mut String, omitted: usize)
    ensures
        final(out)@ == old(out)@ + omitted_line(omitted as nat),
{
    if omitted > 0 {
        push_decimal(out, omitted);
        push_str(out, OMITTED_SUFFIX);
    }
    assert(out@ =~= old(out)@ + omitted_line(omitted as nat));
}

pub proof fn lemma_find_dunder_bounds(p: Seq<char>, i: int)
    requires
        0 <= i,
    ensures
        find_dunder_from(p, i) == -1 || (i <= find_dunder_from(p, i) && find_dunder_from(p, i) + 1 < p.len()),
    decreases p.len() - i,
{
    if i + 1 < p.len() && !(p[i] == '_' && p[i + 1] == '_') {
        lemma_find_dunder_bounds(p, i + 1);
    }
}

/// Splits a prefix after its first `__`.
fn split_prefix_exec(p: &Vec<char>) -> (r: (Vec<char>, Vec<char>))
    ensures
        (r.0@, r.1@) == split_prefix(p@),
{
    let mut i: usize = 0;
    while i < p.len() && i + 1 < p.len() && !(p[i] == '_' && p[i + 1] == '_')
        invariant
            i <= p.len(),
            find_dunder_from(p@, 0) == find_dunder_from(p@, i as int),
        decreases p.len() - i,
    {
        i = i + 1;
    }
    proof {
        lemma_find_dunder_bounds(p@, 0);
    }
    if i < p.len() && i + 1 < p.len() {
        (crate::describe::slice_chars(p, 0, i + 2), crate::describe::slice_chars(p, i + 2, p.len()))
    } else {
        let e: Vec<char> = Vec::new();
        assert(e@ =~= seq![]);
        let whole = crate::describe::slice_chars(p, 0, p.len());
        assert(whole@ =~= p@);
        (whole, e)
    }
}

/// One group to print.
pub struct Listing {
    pub prefix: Vec<char>,
    pub description: Vec<char>,
    pub tools: Vec<(Vec<char>, Vec<char>)>,
}

impl View for Listing {
    type V = ListingM;

    open spec fn view(&self) -> ListingM {
        (self.prefix@, self.description@, ev(self.tools@))
    }
}

pub open spec fn lv(s: Seq<Listing>) -> Seq<ListingM> {
    s.map_values(|l: Listing| l@)
}

fn label_exec(prefix: &Vec<char>) -> (r: Vec<char>)
    ensures
        r@ == group_label(prefix@),
{
    if prefix.len() == 0 {
        chars_of(OTHER_GROUP_LABEL)
    } else {
        crate::describe::slice_chars(prefix, 0, prefix.len())
    }
}

fn top_description_exec(groups: &Vec<(Vec<char>, CatalogGroup)>, top: &Vec<char>) -> (r: Vec<char>)
    ensures
        r@ == top_description(ev(groups@), top@),
{
    match find_key(groups, top) {
        Some(j) => {
            assert(ev(groups@)[j as int].1 == groups@[j as int].1@);
            crate::describe::slice_chars(&groups[j].1.description, 0, groups[j].1.description.len())
        },
        None => {
            let e: Vec<char> = Vec::new();
            assert(e@ =~= seq![]);
            e
        },
    }
}

pub open spec fn opt_chars(o: Option<Vec<char>>) -> Option<Seq<char>> {
    match o {
        Some(v) => Some(v@),
        None => None,
    }
}

/// Appends groups in order, nesting `top__sub__` under a `top__` heading.
#[verifier::rlimit(40)]
#[verifier::spinoff_prover]
pub fn push_groups(out: &mut String, listing: &Vec<Listing>, current: &Vec<(Vec<char>, CatalogGroup)>)
    ensures
        final(out)@ == old(out)@ + groups_text(lv(listing@), ev(current@)).0,
{
    let ghost start = out@;
    let ghost cur = ev(current@);
    let mut current_top: Option<Vec<char>> = None;
    let mut i: usize = 0;
    while i < listing.len()
        invariant
            i <= listing.len(),
            cur == ev(current@),
            out@ == start + groups_text(lv(listing@).take(i as int), cur).0,
            opt_chars(current_top) == groups_text(lv(listing@).take(i as int), cur).1,
        decreases listing.len() - i,
    {
        let l = &listing[i];
        proof {
            assert(lv(listing@).take(i + 1).drop_last() =~= lv(listing@).take(i as int));
            assert(lv(listing@).take(i + 1).last() == l@);
        }
        let (top, sub) = split_prefix_exec(&l.prefix);
        let same = match &current_top {
            Some(t) => chars_eq(t, &top),
            None => false,
        };
        let ghost before = out@;
        if !same {
            let d = top_description_exec(current, &top);
            push_heading(out, false, &label_exec(&top), &d);
        }
        let ghost mid = out@;
        let nested = sub.len() > 0;
        if nested {
            push_heading(out, true, &sub, &l.description);
        }
        let ghost mid2 = out@;
        push_tools(out, nested, &l.tools);
        proof {
            let last_top = groups_text(lv(listing@).take(i as int), cur).1;
            let th = if last_top != Some(top@) {
                heading(seq![], group_label(top@), top_description(cur, top@))
            } else {
                seq![]
            };
            assert(mid == before + th);
            let sh: Seq<char> = if sub@.len() == 0 { seq![] } else { heading(seq![' ', ' '], sub@, l.description@) };
            assert(mid2 == mid + sh);
        }
        current_top = Some(top);
        i = i + 1;
    }
    assert(lv(listing@).take(listing.len() as int) =~= lv(listing@));
}

/// The whole catalog.
pub fn render_full(cur: &ToolCatalogSnapshot) -> (r: String)
    ensures
        r@ == render_full_spec(cur@),
{
    let mut listing: Vec<Listing> = Vec::new();
    let mut i: usize = 0;
    while i < cur.groups.len()
        invariant
            i <= cur.groups.len(),
            lv(listing@) == full_listing(ev(cur.groups@)).take(i as int),
        decreases cur.groups.len() - i,
    {
        let g = &cur.groups[i];
        let ghost before = listing@;
        let l = Listing {
            prefix: crate::describe::slice_chars(&g.0, 0, g.0.len()),
            description: crate::describe::slice_chars(&g.1.description, 0, g.1.description.len()),
            tools: clone_pairs(&g.1.tools),
        };
        listing.push(l);
        proof {
            assert(g.0@.subrange(0, g.0@.len() as int) =~= g.0@);
            assert(g.1.description@.subrange(0, g.1.description@.len() as int) =~= g.1.description@);
            assert(ev(cur.groups@)[i as int] == (g.0@, g.1@));
            assert(lv(listing@) =~= lv(before).push(full_listing(ev(cur.groups@))[i as int]));
        }
        i = i + 1;
    }
    assert(full_listing(ev(cur.groups@)).take(cur.groups.len() as int) =~= full_listing(ev(cur.groups@)));
    let mut out = String::new();
    push_char(&mut out, '\n');
    push_str(&mut out, FULL_INTRO);
    push_groups(&mut out, &listing, &cur.groups);
    push_omitted(&mut out, cur.omitted);
    assert(out@ =~= render_full_spec(cur@));
    out
}

fn clone_vec(v: &Vec<char>) -> (r: Vec<char>)
    ensures
        r@ == v@,
{
    crate::describe::slice_chars(v, 0, v.len())
}

fn group_or_empty_exec(groups: &Vec<(Vec<char>, CatalogGroup)>, p: &Vec<char>) -> (r: CatalogGroup)
    ensures
        r@ == group_or_empty(ev(groups@), p@),
{
    match find_key(groups, p) {
        Some(j) => {
            assert(ev(groups@)[j as int].1 == groups@[j as int].1@);
            CatalogGroup {
                description: clone_vec(&groups[j].1.description),
                tools: clone_pairs(&groups[j].1.tools),
            }
        },
        None => {
            let g = CatalogGroup { description: Vec::new(), tools: Vec::new() };
            assert(g@.description =~= seq![]);
            assert(g@.tools =~= seq![]);
            g
        },
    }
}

fn added_exec(
    after: &Vec<(Vec<char>, Vec<char>)>,
    before: &Vec<(Vec<char>, Vec<char>)>,
    remembered: &Vec<(Vec<char>, Vec<char>)>,
    p: &Vec<char>,
) -> (r: Vec<(Vec<char>, Vec<char>)>)
    ensures
        ev(r@) == added_tools(ev(after@), ev(before@), ev(remembered@), p@),
{
    let mut r: Vec<(Vec<char>, Vec<char>)> = Vec::new();
    let mut i: usize = 0;
    while i < after.len()
        invariant
            i <= after.len(),
            ev(r@) == added_tools(ev(after@).take(i as int), ev(before@), ev(remembered@), p@),
        decreases after.len() - i,
    {
        let (name, description) = (&after[i].0, &after[i].1);
        proof {
            assert(ev(after@).take(i + 1).drop_last() =~= ev(after@).take(i as int));
            assert(ev(after@).take(i + 1).last() == (name@, description@));
        }
        if find_key(before, name).is_none() {
            let ghost old_r = r@;
            let full = concat(p, name);
            let known = match find_key(remembered, &full) {
                Some(j) => {
                    assert(ev(remembered@)[j as int].1 == remembered@[j as int].1@);
                    crate::text::chars_eq(&remembered[j].1, description)
                },
                None => false,
            };
            if known {
                let e: Vec<char> = Vec::new();
                assert(e@ =~= seq![]);
                r.push((clone_vec(name), e));
            } else {
                r.push((clone_vec(name), clone_vec(description)));
            }
            proof {
                assert(ev(r@) =~= ev(old_r).push(ev(r@).last()));
            }
        }
        i = i + 1;
    }
    assert(ev(after@).take(after.len() as int) =~= ev(after@));
    r
}

fn concat(a: &Vec<char>, b: &Vec<char>) -> (r: Vec<char>)
    ensures
        r@ == a@ + b@,
{
    let mut r = clone_vec(a);
    let mut i: usize = 0;
    while i < b.len()
        invariant
            i <= b.len(),
            r@ == a@ + b@.take(i as int),
        decreases b.len() - i,
    {
        r.push(b[i]);
        i = i + 1;
        assert(r@ =~= a@ + b@.take(i as int));
    }
    assert(b@.take(b.len() as int) =~= b@);
    r
}

fn changed_exec(after: &Vec<(Vec<char>, Vec<char>)>, before: &Vec<(Vec<char>, Vec<char>)>) -> (r: Vec<(Vec<char>, Vec<char>)>)
    ensures
        ev(r@) == changed_tools(ev(after@), ev(before@)),
{
    let mut r: Vec<(Vec<char>, Vec<char>)> = Vec::new();
    let mut i: usize = 0;
    while i < after.len()
        invariant
            i <= after.len(),
            ev(r@) == changed_tools(ev(after@).take(i as int), ev(before@)),
        decreases after.len() - i,
    {
        let (name, description) = (&after[i].0, &after[i].1);
        proof {
            assert(ev(after@).take(i + 1).drop_last() =~= ev(after@).take(i as int));
            assert(ev(after@).take(i + 1).last() == (name@, description@));
        }
        match find_key(before, name) {
            Some(j) => {
                assert(ev(before@)[j as int].1 == before@[j as int].1@);
                if !crate::text::chars_eq(&before[j].1, description) {
                    let ghost old_r = r@;
                    r.push((clone_vec(name), clone_vec(description)));
                    assert(ev(r@) =~= ev(old_r).push((name@, description@)));
                }
            },
            None => {},
        }
        i = i + 1;
    }
    assert(ev(after@).take(after.len() as int) =~= ev(after@));
    r
}

fn shares_name_exec(before: &Vec<(Vec<char>, Vec<char>)>, after: &Vec<(Vec<char>, Vec<char>)>) -> (r: bool)
    ensures
        r == shares_name(ev(before@), ev(after@)),
{
    let mut r = false;
    let mut i: usize = 0;
    while i < before.len()
        invariant
            i <= before.len(),
            r == shares_name(ev(before@).take(i as int), ev(after@)),
        decreases before.len() - i,
    {
        proof {
            assert(ev(before@).take(i + 1).drop_last() =~= ev(before@).take(i as int));
            assert(ev(before@).take(i + 1).last().0 == before@[i as int].0@);
        }
        r = find_key(after, &before[i].0).is_some() || r;
        i = i + 1;
    }
    assert(ev(before@).take(before.len() as int) =~= ev(before@));
    r
}

fn removed_exec(
    cands: &Vec<Vec<char>>,
    after: &Vec<(Vec<char>, Vec<char>)>,
    present: &Vec<Vec<char>>,
    p: &Vec<char>,
) -> (r: Vec<Vec<char>>)
    ensures
        sv(r@) == removed_names(sv(cands@), ev(after@), sv(present@), p@),
{
    let mut r: Vec<Vec<char>> = Vec::new();
    let mut i: usize = 0;
    while i < cands.len()
        invariant
            i <= cands.len(),
            sv(r@) == removed_names(sv(cands@).take(i as int), ev(after@), sv(present@), p@),
        decreases cands.len() - i,
    {
        let name = &cands[i];
        proof {
            assert(sv(cands@).take(i + 1).drop_last() =~= sv(cands@).take(i as int));
            assert(sv(cands@).take(i + 1).last() == name@);
        }
        if find_key(after, name).is_none() && !contains_name(present, &concat(p, name)) {
            set_insert(&mut r, clone_vec(name));
        }
        i = i + 1;
    }
    assert(sv(cands@).take(cands.len() as int) =~= sv(cands@));
    r
}

/// What separates names in a line: `, `.
pub open spec fn name_separator() -> Seq<char> {
    seq![',', ' ']
}

fn join_exec(names: &Vec<Vec<char>>) -> (r: Vec<char>)
    ensures
        r@ == join(sv(names@), seq![',', ' ']),
        forall|i: int|
            0 <= i < names@.len() ==> #[trigger] r@.subrange(
                name_offset(sv(names@), name_separator(), i),
                name_offset(sv(names@), name_separator(), i) + names@[i]@.len(),
            ) == names@[i]@,
{
    let mut r: Vec<char> = Vec::new();
    let mut i: usize = 0;
    while i < names.len()
        invariant
            i <= names.len(),
            r@ == join(sv(names@).take(i as int), seq![',', ' ']),
        decreases names.len() - i,
    {
        proof {
            assert(sv(names@).take(i + 1).drop_last() =~= sv(names@).take(i as int));
            assert(sv(names@).take(i + 1).last() == names@[i as int]@);
            if i == 0 {
                assert(sv(names@).take(1)[0] == names@[0]@);
            }
        }
        if i > 0 {
            r.push(',');
            r.push(' ');
        }
        let ghost old_r = r@;
        let mut j: usize = 0;
        while j < names[i].len()
            invariant
                i < names.len(),
                j <= names@[i as int]@.len(),
                r@ == old_r + names@[i as int]@.take(j as int),
            decreases names@[i as int]@.len() - j,
        {
            r.push(names[i][j]);
            j = j + 1;
            assert(r@ =~= old_r + names@[i as int]@.take(j as int));
        }
        assert(names@[i as int]@.take(names@[i as int]@.len() as int) =~= names@[i as int]@);
        proof {
            if i == 0 {
                assert(r@ =~= join(sv(names@).take(1), seq![',', ' ']));
            } else {
                assert(r@ =~= join(sv(names@).take(i as int), seq![',', ' ']) + seq![',', ' '] + names@[i as int]@);
            }
        }
        i = i + 1;
    }
    assert(sv(names@).take(names.len() as int) =~= sv(names@));
    proof {
        lemma_join_names_every_name(sv(names@), name_separator());
        assert(name_separator() =~= seq![',', ' ']);
        let sep = name_separator();
        assert(r@ == join(sv(names@), sep));
        assert forall|i: int| 0 <= i < names@.len() implies #[trigger] r@.subrange(
            name_offset(sv(names@), sep, i),
            name_offset(sv(names@), sep, i) + names@[i]@.len(),
        ) == names@[i]@ by {
            assert(sv(names@)[i] == names@[i]@);
            assert(join(sv(names@), sep).subrange(
                name_offset(sv(names@), sep, i),
                name_offset(sv(names@), sep, i) + sv(names@)[i].len(),
            ) == sv(names@)[i]);
        }
    }
    r
}


fn push_keys<V: View>(out: &mut Vec<Vec<char>>, s: &Vec<(Vec<char>, V)>)
    ensures
        sv(final(out)@) == sv(old(out)@) + keys_of(ev(s@)),
{
    let ghost start = sv(out@);
    let mut i: usize = 0;
    while i < s.len()
        invariant
            i <= s.len(),
            sv(out@) == start + keys_of(ev(s@)).take(i as int),
        decreases s.len() - i,
    {
        let ghost before = out@;
        out.push(clone_vec(&s[i].0));
        proof {
            assert(sv(out@) =~= sv(before).push(s@[i as int].0@));
            assert(keys_of(ev(s@)).take(i + 1) =~= keys_of(ev(s@)).take(i as int).push(
                s@[i as int].0@,
            ));
        }
        i = i + 1;
    }
    assert(keys_of(ev(s@)).take(s.len() as int) =~= keys_of(ev(s@)));
}

fn append_names(out: &mut Vec<Vec<char>>, names: &Vec<Vec<char>>)
    ensures
        sv(final(out)@) == sv(old(out)@) + sv(names@),
{
    let ghost start = sv(out@);
    let mut i: usize = 0;
    while i < names.len()
        invariant
            i <= names.len(),
            sv(out@) == start + sv(names@).take(i as int),
        decreases names.len() - i,
    {
        let ghost before = out@;
        out.push(clone_vec(&names[i]));
        proof {
            assert(sv(out@) =~= sv(before).push(names@[i as int]@));
            assert(sv(names@).take(i + 1) =~= sv(names@).take(i as int).push(names@[i as int]@));
        }
        i = i + 1;
    }
    assert(sv(names@).take(names.len() as int) =~= sv(names@));
}

fn collect_names(all: &Vec<Vec<char>>) -> (r: Vec<Vec<char>>)
    ensures
        sv(r@) == collect_set(sv(all@)),
{
    let mut r: Vec<Vec<char>> = Vec::new();
    assert(sv(r@) =~= seq![]);
    let mut i: usize = 0;
    while i < all.len()
        invariant
            i <= all.len(),
            sv(r@) == collect_set(sv(all@).take(i as int)),
        decreases all.len() - i,
    {
        proof {
            assert(sv(all@).take(i + 1).drop_last() =~= sv(all@).take(i as int));
            assert(sv(all@).take(i + 1).last() == all@[i as int]@);
        }
        set_insert(&mut r, clone_vec(&all[i]));
        i = i + 1;
    }
    assert(sv(all@).take(all.len() as int) =~= sv(all@));
    r
}

/// The names listed or kept unlisted under `p` in the previous catalog.
fn removal_candidates(previous: &ToolCatalogSnapshot, before: &CatalogGroup, p: &Vec<char>) -> (r: Vec<Vec<char>>)
    ensures
        sv(r@) == keys_of(before@.tools) + lookup_names(previous@.unlisted, p@),
{
    let mut cands: Vec<Vec<char>> = Vec::new();
    assert(sv(cands@) =~= seq![]);
    push_keys(&mut cands, &before.tools);
    let ghost first = sv(cands@);
    match find_key(&previous.unlisted, p) {
        Some(j) => {
            assert(ev(previous.unlisted@)[j as int].1 == sv(previous.unlisted@[j as int].1.names@));
            append_names(&mut cands, &previous.unlisted[j].1.names);
        },
        None => {
            assert(first + lookup_names(previous@.unlisted, p@) =~= first);
        },
    }
    cands
}

fn push_unloaded(out: &mut String, p: &Vec<char>, removed: &Vec<Vec<char>>)
    ensures
        final(out)@ == old(out)@ + unloaded_line(p@, sv(removed@)),
{
    if removed.len() > 0 {
        push_char(out, '-');
        push_char(out, ' ');
        push_escaped(out, &label_exec(p));
        push_char(out, ':');
        push_char(out, ' ');
        push_escaped(out, &join_exec(removed));
        push_char(out, '\n');
    }
    assert(out@ =~= old(out)@ + unloaded_line(p@, sv(removed@)));
}

pub open spec fn opt_string(o: Option<String>) -> Option<Seq<char>> {
    match o {
        Some(s) => Some(s@),
        None => None,
    }
}

/// The groups loaded and updated, and the unloaded lines, under `prefixes`.
fn collect_changes(
    previous: &ToolCatalogSnapshot,
    current: &ToolCatalogSnapshot,
    present: &Vec<Vec<char>>,
    prefixes: &Vec<Vec<char>>,
) -> (r: (Vec<Listing>, Vec<Listing>, String))
    ensures
        lv(r.0@) == changes(sv(prefixes@), previous@, current@, sv(present@)).loaded,
        lv(r.1@) == changes(sv(prefixes@), previous@, current@, sv(present@)).updated,
        r.2@ == changes(sv(prefixes@), previous@, current@, sv(present@)).unloaded,
{
    let ghost prev = previous@;
    let ghost cur = current@;
    let ghost pres = sv(present@);
    let mut loaded: Vec<Listing> = Vec::new();
    let mut updated: Vec<Listing> = Vec::new();
    let mut unloaded = String::new();
    assert(lv(loaded@) =~= seq![]);
    assert(lv(updated@) =~= seq![]);
    let mut i: usize = 0;
    while i < prefixes.len()
        invariant
            i <= prefixes.len(),
            prev == previous@,
            cur == current@,
            pres == sv(present@),
            lv(loaded@) == changes(sv(prefixes@).take(i as int), prev, cur, pres).loaded,
            lv(updated@) == changes(sv(prefixes@).take(i as int), prev, cur, pres).updated,
            unloaded@ == changes(sv(prefixes@).take(i as int), prev, cur, pres).unloaded,
        decreases prefixes.len() - i,
    {
        let p = &prefixes[i];
        proof {
            assert(sv(prefixes@).take(i + 1).drop_last() =~= sv(prefixes@).take(i as int));
            assert(sv(prefixes@).take(i + 1).last() == p@);
        }
        let before = group_or_empty_exec(&previous.groups, p);
        let after = group_or_empty_exec(&current.groups, p);
        let added = added_exec(&after.tools, &before.tools, &previous.remembered, p);
        let changed = changed_exec(&after.tools, &before.tools);
        let redescribed = shares_name_exec(&before.tools, &after.tools) && !chars_eq(
            &before.description,
            &after.description,
        );
        let cands = removal_candidates(previous, &before, p);
        let removed = removed_exec(&cands, &after.tools, present, p);
        if added.len() > 0 {
            let ghost old_l = loaded@;
            loaded.push(Listing { prefix: clone_vec(p), description: clone_vec(&after.description), tools: added });
            assert(lv(loaded@) =~= lv(old_l).push(loaded@.last()@));
        }
        if changed.len() > 0 || redescribed {
            let ghost old_u = updated@;
            updated.push(
                Listing { prefix: clone_vec(p), description: clone_vec(&after.description), tools: changed },
            );
            assert(lv(updated@) =~= lv(old_u).push(updated@.last()@));
        }
        push_unloaded(&mut unloaded, p, &removed);
        i = i + 1;
    }
    assert(sv(prefixes@).take(prefixes.len() as int) =~= sv(prefixes@));
    (loaded, updated, unloaded)
}

/// The closing lines of a change listing: the count of tools past the
/// budget when it changed, and a note when no tool is left.
pub open spec fn changes_tail(prev: SnapM, cur: SnapM) -> Seq<char> {
    (if cur.omitted != prev.omitted {
        (if cur.omitted == 0 && cur.groups.len() > 0 {
            "Every tool is listed now.\n"@
        } else {
            seq![]
        }) + omitted_line(cur.omitted)
    } else {
        seq![]
    }) + (if cur.groups.len() == 0 && cur.omitted == 0 {
        "No such tools remain.\n"@
    } else {
        seq![]
    })
}

fn push_changes_tail(out: &mut String, previous: &ToolCatalogSnapshot, current: &ToolCatalogSnapshot)
    ensures
        final(out)@ == old(out)@ + changes_tail(previous@, current@),
{
    let ghost start = out@;
    if current.omitted != previous.omitted {
        if current.omitted == 0 && current.groups.len() > 0 {
            push_str(out, "Every tool is listed now.\n");
        }
        push_omitted(out, current.omitted);
    }
    let ghost mid = out@;
    assert(mid =~= start + (if current@.omitted != previous@.omitted {
        (if current@.omitted == 0 && current@.groups.len() > 0 {
            "Every tool is listed now.\n"@
        } else {
            seq![]
        }) + omitted_line(current@.omitted)
    } else {
        seq![]
    }));
    if current.groups.len() == 0 && current.omitted == 0 {
        push_str(out, "No such tools remain.\n");
    }
    assert(out@ =~= start + changes_tail(previous@, current@));
}

/// What changed since `previous`, given the full names of every tool
/// callable now; `None` when nothing worth saying did.
pub fn render_changes(previous: &ToolCatalogSnapshot, current: &ToolCatalogSnapshot, present: &Vec<Vec<char>>) -> (r: Option<String>)
    ensures
        opt_string(r) == render_changes_spec(previous@, current@, sv(present@)),
{
    let ghost prev = previous@;
    let ghost cur = current@;
    let ghost pres = sv(present@);
    let mut keys: Vec<Vec<char>> = Vec::new();
    assert(sv(keys@) =~= seq![]);
    push_keys(&mut keys, &previous.groups);
    push_keys(&mut keys, &previous.unlisted);
    push_keys(&mut keys, &current.groups);
    assert(sv(keys@) =~= keys_of(prev.groups) + keys_of(prev.unlisted) + keys_of(cur.groups));
    let prefixes = collect_names(&keys);
    let (loaded, updated, unloaded) = collect_changes(previous, current, present, &prefixes);
    let ghost c = changes(change_prefixes(prev, cur), prev, cur, pres);
    if loaded.len() == 0 && updated.len() == 0 && unloaded.as_str().is_empty() && current.omitted
        == previous.omitted {
        return None;
    }
    let mut out = String::new();
    push_char(&mut out, '\n');
    push_str(&mut out, DIFF_INTRO);
    let ghost s0 = out@;
    if loaded.len() > 0 {
        push_str(&mut out, "Loaded:\n");
        push_groups(&mut out, &loaded, &current.groups);
    }
    let ghost s1 = out@;
    assert(s1 == s0 + section("Loaded:\n"@, c.loaded, cur.groups));
    if updated.len() > 0 {
        push_str(&mut out, "Updated:\n");
        push_groups(&mut out, &updated, &current.groups);
    }
    let ghost s2 = out@;
    assert(s2 == s1 + section("Updated:\n"@, c.updated, cur.groups));
    if !unloaded.as_str().is_empty() {
        push_str(&mut out, "Unloaded:\n");
        push_str(&mut out, unloaded.as_str());
    }
    push_changes_tail(&mut out, previous, current);
    assert(out@ =~= render_changes_spec(prev, cur, pres)->0);
    Some(out)
}

/// The catalog the model saw last, as far as history tells.
pub enum PreviousSectionState<'a> {
    /// History holds this catalog.
    Known(&'a ToolCatalogSnapshot),
    /// History holds no catalog.
    Absent,
    /// Whether history holds a catalog is not known (after compaction).
    Unknown,
}

pub open spec fn known_view(p: PreviousSectionState) -> Option<SnapM> {
    match p {
        PreviousSectionState::Known(s) => Some(s@),
        _ => None,
    }
}

/// The role of the message the catalog is sent in.
pub const CATALOG_ROLE: &'static str = "developer";

/// The content kind of the catalog message.
pub const CATALOG_CONTENT_KIND: &'static str = "tools.catalog";

/// A rendered catalog section: its body goes between the catalog tags.
pub struct CatalogFragment {
    pub body: String,
}

impl CatalogFragment {
    pub fn role(&self) -> (r: &'static str)
        ensures
            r@ == CATALOG_ROLE@,
    {
        CATALOG_ROLE
    }

    pub fn content_kind(&self) -> (r: &'static str)
        ensures
            r@ == CATALOG_CONTENT_KIND@,
    {
        CATALOG_CONTENT_KIND
    }

    /// The text of the message: the body between the catalog tags.
    pub fn render(&self) -> (r: String)
        ensures
            r@ == TOOL_CATALOG_OPEN_TAG@ + self.body@ + TOOL_CATALOG_CLOSE_TAG@,
    {
        let mut out = String::new();
        push_str(&mut out, TOOL_CATALOG_OPEN_TAG);
        push_str(&mut out, self.body.as_str());
        push_str(&mut out, TOOL_CATALOG_CLOSE_TAG);
        out
    }
}

/// The body rendered for state `st` against the catalog history holds
/// (`None` when it holds none or its presence is unknown): the changes
/// against a known catalog, else the whole catalog unless it is empty.
pub open spec fn diff_body_spec(st: StateM, known: Option<SnapM>) -> Option<Seq<char>> {
    match known {
        Some(p) => render_changes_spec(p, st.catalog, st.present),
        None => if st.catalog.groups.len() == 0 && st.catalog.omitted == 0 {
            None
        } else {
            Some(render_full_spec(st.catalog))
        },
    }
}

pub open spec fn fragment_body(r: Option<CatalogFragment>) -> Option<Seq<char>> {
    match r {
        Some(f) => Some(f.body@),
        None => None,
    }
}

impl ToolCatalogState {
    /// The catalog section for the next request, given what history holds.
    /// Without a known catalog in history the whole catalog is rendered and
    /// remembered as such, so nothing else counts as described.
    pub fn render_diff(&mut self, previous: PreviousSectionState) -> (r: Option<CatalogFragment>)
        ensures
            fragment_body(r) == diff_body_spec(old(self)@, known_view(previous)),
            final(self)@ == (StateM {
                rendered_whole: old(self)@.rendered_whole || known_view(previous) is None,
                ..old(self)@
            }),
    {
        let body = match previous {
            PreviousSectionState::Known(prev) => {
                match render_changes(prev, &self.catalog, &self.present) {
                    Some(b) => b,
                    None => {
                        return None;
                    },
                }
            },
            _ => {
                self.rendered_whole = true;
                if self.catalog.groups.len() == 0 && self.catalog.omitted == 0 {
                    return None;
                }
                render_full(&self.catalog)
            },
        };
        Some(CatalogFragment { body })
    }
}


proof fn lemma_nothing_added(
    a: Seq<(Seq<char>, Seq<char>)>,
    t: Seq<(Seq<char>, Seq<char>)>,
    r: Seq<(Seq<char>, Seq<char>)>,
    p: Seq<char>,
)
    requires
        forall|i: int| 0 <= i < a.len() ==> lookup(t, #[trigger] a[i].0) is Some,
    ensures
        added_tools(a, t, r, p).len() == 0,
    decreases a.len(),
{
    if a.len() > 0 {
        assert(lookup(t, a[a.len() - 1].0) is Some);
        lemma_nothing_added(a.drop_last(), t, r, p);
    }
}

proof fn lemma_nothing_changed(a: Seq<(Seq<char>, Seq<char>)>, t: Seq<(Seq<char>, Seq<char>)>)
    requires
        forall|i: int| 0 <= i < a.len() ==> lookup(t, #[trigger] a[i].0) == Some(a[i].1),
    ensures
        changed_tools(a, t).len() == 0,
    decreases a.len(),
{
    if a.len() > 0 {
        assert(lookup(t, a[a.len() - 1].0) == Some(a[a.len() - 1].1));
        lemma_nothing_changed(a.drop_last(), t);
    }
}

proof fn lemma_nothing_removed(
    cands: Seq<Seq<char>>,
    t: Seq<(Seq<char>, Seq<char>)>,
    present: Seq<Seq<char>>,
    p: Seq<char>,
)
    requires
        forall|i: int|
            0 <= i < cands.len() ==> lookup(t, #[trigger] cands[i]) is Some || present.contains(
                p + cands[i],
            ),
    ensures
        removed_names(cands, t, present, p).len() == 0,
    decreases cands.len(),
{
    if cands.len() > 0 {
        assert(lookup(t, cands[cands.len() - 1]) is Some || present.contains(p + cands[cands.len() - 1]));
        lemma_nothing_removed(cands.drop_last(), t, present, p);
    }
}

proof fn lemma_group_or_empty_unique(groups: Seq<(Seq<char>, GroupM)>, p: Seq<char>)
    requires
        forall|g: int| 0 <= g < groups.len() ==> unique_keys(#[trigger] groups[g].1.tools),
    ensures
        unique_keys(group_or_empty(groups, p).tools),
{
    if lookup(groups, p) is Some {
        lemma_lookup_found(groups, p);
        let g = choose|g: int| 0 <= g < groups.len() && groups[g].0 == p && Some(groups[g].1) == lookup(groups, p);
        assert(unique_keys(groups[g].1.tools));
    }
}

proof fn lemma_no_changes(prefixes: Seq<Seq<char>>, prev: SnapM, cur: SnapM, present: Seq<Seq<char>>)
    requires
        prev.groups == cur.groups,
        catalog_wf(prev, present),
    ensures
        changes(prefixes, prev, cur, present).loaded.len() == 0,
        changes(prefixes, prev, cur, present).updated.len() == 0,
        changes(prefixes, prev, cur, present).unloaded.len() == 0,
    decreases prefixes.len(),
{
    if prefixes.len() > 0 {
        lemma_no_changes(prefixes.drop_last(), prev, cur, present);
        let p = prefixes.last();
        let g = group_or_empty(cur.groups, p);
        lemma_group_or_empty_unique(cur.groups, p);
        assert forall|i: int| 0 <= i < g.tools.len() implies lookup(g.tools, #[trigger] g.tools[i].0)
            == Some(g.tools[i].1) by {
            lemma_lookup_unique(g.tools, i);
        }
        lemma_nothing_added(g.tools, g.tools, prev.remembered, p);
        lemma_nothing_changed(g.tools, g.tools);
        let names = lookup_names(prev.unlisted, p);
        assert forall|k: int| 0 <= k < names.len() implies present.contains(p + #[trigger] names[k]) by {
            lemma_lookup_found(prev.unlisted, p);
            let u = choose|u: int|
                0 <= u < prev.unlisted.len() && prev.unlisted[u].0 == p && Some(prev.unlisted[u].1)
                    == lookup(prev.unlisted, p);
            assert(present.contains(prev.unlisted[u].0 + prev.unlisted[u].1[k]));
        }
        let cands = keys_of(g.tools) + names;
        assert forall|i: int| 0 <= i < cands.len() implies lookup(g.tools, #[trigger] cands[i]) is Some
            || present.contains(p + cands[i]) by {
            if i < g.tools.len() {
                assert(cands[i] == g.tools[i].0);
            } else {
                assert(cands[i] == names[i - g.tools.len()]);
            }
        }
        lemma_nothing_removed(cands, g.tools, present, p);
    }
}

/// A catalog rendered against its own snapshot says nothing: later steps
/// only append what changed, so a step whose tools did not change appends
/// nothing, whether or not the catalog was rendered whole since.
pub proof fn lemma_own_snapshot_renders_nothing(st: StateM)
    requires
        catalog_wf(st.catalog, st.present),
    ensures
        diff_body_spec(st, Some(snapshot_spec(st))) is None,
{
    let prev = snapshot_spec(st);
    assert(catalog_wf(prev, st.present));
    lemma_no_changes(change_prefixes(prev, st.catalog), prev, st.catalog, st.present);
}

/// Any well-formed snapshot rendered against itself says nothing: no tool
/// is loaded, updated or unloaded, and the omitted count is the same. A
/// snapshot is well-formed when each group lists a name once and each name
/// it keeps unlisted is callable, as every snapshot a catalog gives is.
pub proof fn lemma_snapshot_against_itself_says_nothing(s: SnapM, present: Seq<Seq<char>>)
    requires
        catalog_wf(s, present),
    ensures
        render_changes_spec(s, s, present) is None,
{
    lemma_no_changes(change_prefixes(s, s), s, s, present);
}

/// A catalog made for some tools, rendered whole or not, appends nothing
/// against its own snapshot: a step whose tools did not change says nothing.
pub proof fn lemma_unchanged_tools_append_nothing(tools: Seq<ToolM>, prev: Option<SnapM>, rendered_whole: bool)
    ensures
        ({
            let st = StateM { rendered_whole, ..new_spec(tools, prev) };
            diff_body_spec(st, Some(snapshot_spec(st))) is None
        }),
{
    lemma_new_catalog_is_wf(tools, prev);
    let st = StateM { rendered_whole, ..new_spec(tools, prev) };
    lemma_own_snapshot_renders_nothing(st);
}

/// Escaped text holds no `<` or `>`, so no description can open or close a
/// tag of the catalog.
pub proof fn lemma_escape_has_no_tags(s: Seq<char>)
    ensures
        forall|i: int| 0 <= i < escape(s).len() ==> #[trigger] escape(s)[i] != '<' && escape(s)[i] != '>',
    decreases s.len(),
{
    if s.len() > 0 {
        lemma_escape_has_no_tags(s.drop_last());
        let e = esc_char(s.last());
        assert forall|i: int| 0 <= i < escape(s).len() implies #[trigger] escape(s)[i] != '<' && escape(s)[i] != '>' by {
            if i >= escape(s.drop_last()).len() {
                assert(escape(s)[i] == e[i - escape(s.drop_last()).len()]);
            } else {
                assert(escape(s)[i] == escape(s.drop_last())[i]);
            }
        }
    }
}

/// `s` with the escapes of `&`, `<` and `>` decoded, left to right.
pub open spec fn unescape(s: Seq<char>) -> Seq<char>
    decreases s.len(),
{
    if s.len() == 0 {
        seq![]
    } else if s.len() >= 4 && s.take(4) == seq!['&', 'l', 't', ';'] {
        seq!['<'] + unescape(s.skip(4))
    } else if s.len() >= 4 && s.take(4) == seq!['&', 'g', 't', ';'] {
        seq!['>'] + unescape(s.skip(4))
    } else if s.len() >= 5 && s.take(5) == seq!['&', 'a', 'm', 'p', ';'] {
        seq!['&'] + unescape(s.skip(5))
    } else {
        seq![s[0]] + unescape(s.drop_first())
    }
}

proof fn lemma_escape_first(s: Seq<char>)
    requires
        s.len() > 0,
    ensures
        escape(s) == esc_char(s[0]) + escape(s.drop_first()),
    decreases s.len(),
{
    if s.len() == 1 {
        assert(s.drop_last().len() == 0);
        assert(escape(s.drop_last()) == Seq::<char>::empty());
        assert(s.last() == s[0]);
        assert(s.drop_first().len() == 0);
        assert(escape(s.drop_first()) == Seq::<char>::empty());
        assert(escape(s) =~= esc_char(s[0]) + escape(s.drop_first()));
    } else {
        let d = s.drop_last();
        lemma_escape_first(d);
        assert(d.drop_first() =~= s.drop_first().drop_last());
        assert(s.drop_first().last() == s.last());
        assert(d[0] == s[0]);
        assert(escape(s) =~= esc_char(s[0]) + escape(s.drop_first()));
    }
}

proof fn lemma_unescape_esc_char(c: char, t: Seq<char>)
    ensures
        unescape(esc_char(c) + t) == seq![c] + unescape(t),
{
    let u = esc_char(c) + t;
    if c == '&' {
        assert(u.take(4) != seq!['&', 'l', 't', ';']) by { assert(u.take(4)[1] == 'a'); }
        assert(u.take(4) != seq!['&', 'g', 't', ';']) by { assert(u.take(4)[1] == 'a'); }
        assert(u.take(5) =~= seq!['&', 'a', 'm', 'p', ';']);
        assert(u.skip(5) =~= t);
    } else if c == '<' {
        assert(u.take(4) =~= seq!['&', 'l', 't', ';']);
        assert(u.skip(4) =~= t);
    } else if c == '>' {
        assert(u.take(4) != seq!['&', 'l', 't', ';']) by { assert(u.take(4)[1] == 'g'); }
        assert(u.take(4) =~= seq!['&', 'g', 't', ';']);
        assert(u.skip(4) =~= t);
    } else {
        assert(u[0] == c);
        if u.len() >= 4 {
            assert(u.take(4)[0] == c);
        }
        if u.len() >= 5 {
            assert(u.take(5)[0] == c);
        }
        assert(u.drop_first() =~= t);
    }
}

/// Escaping loses nothing: decoding `&lt;`, `&gt;` and `&amp;` gives the
/// text back, and every other character is copied as it is.
pub proof fn lemma_escape_round_trip(s: Seq<char>)
    ensures
        unescape(escape(s)) == s,
    decreases s.len(),
{
    if s.len() == 0 {
        assert(escape(s) == Seq::<char>::empty());
    } else {
        lemma_escape_first(s);
        lemma_escape_round_trip(s.drop_first());
        lemma_unescape_esc_char(s[0], escape(s.drop_first()));
        assert(seq![s[0]] + s.drop_first() =~= s);
    }
}

proof fn lemma_set_put_iff(s: Seq<Seq<char>>, k: Seq<char>)
    ensures
        forall|x: Seq<char>| #[trigger] set_put(s, k).contains(x) <==> (s.contains(x) || x == k),
{
    lemma_set_put_contains(s, k);
    assert forall|x: Seq<char>| #[trigger] set_put(s, k).contains(x) implies s.contains(x) || x == k by {
        let i = choose|i: int| 0 <= i < set_put(s, k).len() && set_put(s, k)[i] == x;
        lemma_set_put_elems(s, k, i);
    }
}

/// The names unloaded under prefix `p` are exactly the candidates (listed
/// or kept unlisted before) that are neither listed now nor callable.
pub proof fn lemma_removed_names_are_gone(
    cands: Seq<Seq<char>>,
    after: Seq<(Seq<char>, Seq<char>)>,
    present: Seq<Seq<char>>,
    p: Seq<char>,
)
    ensures
        forall|n: Seq<char>|
            #[trigger] removed_names(cands, after, present, p).contains(n) <==> (cands.contains(n) && lookup(after, n) is None
                && !present.contains(p + n)),
    decreases cands.len(),
{
    if cands.len() > 0 {
        let d = cands.drop_last();
        lemma_removed_names_are_gone(d, after, present, p);
        let rest = removed_names(d, after, present, p);
        let name = cands.last();
        if lookup(after, name) is None && !present.contains(p + name) {
            lemma_set_put_iff(rest, name);
        }
        assert forall|n: Seq<char>| cands.contains(n) <==> (d.contains(n) || n == name) by {
            if cands.contains(n) {
                let j = choose|j: int| 0 <= j < cands.len() && cands[j] == n;
                if j < d.len() {
                    assert(d[j] == n);
                }
            }
            if d.contains(n) {
                let j = choose|j: int| 0 <= j < d.len() && d[j] == n;
                assert(cands[j] == n);
            }
            if n == name {
                assert(cands[cands.len() - 1] == n);
            }
        }
    }
}

/// Nothing changed under prefix `p`: no tool was added, no tool kept got a
/// new description, the group was not described anew, and no name is
/// unloaded.
pub open spec fn quiet_under(p: Seq<char>, prev: SnapM, cur: SnapM, present: Seq<Seq<char>>) -> bool {
    let before = group_or_empty(prev.groups, p);
    let after = group_or_empty(cur.groups, p);
    &&& added_tools(after.tools, before.tools, prev.remembered, p).len() == 0
    &&& changed_tools(after.tools, before.tools).len() == 0
    &&& !(shares_name(before.tools, after.tools) && before.description != after.description)
    &&& removed_names(keys_of(before.tools) + lookup_names(prev.unlisted, p), after.tools, present, p).len() == 0
}

proof fn lemma_changes_quiet(prefixes: Seq<Seq<char>>, prev: SnapM, cur: SnapM, present: Seq<Seq<char>>)
    ensures
        ({
            let c = changes(prefixes, prev, cur, present);
            (c.loaded.len() == 0 && c.updated.len() == 0 && c.unloaded.len() == 0) <==> forall|i: int|
                0 <= i < prefixes.len() ==> quiet_under(#[trigger] prefixes[i], prev, cur, present)
        }),
    decreases prefixes.len(),
{
    if prefixes.len() > 0 {
        let d = prefixes.drop_last();
        lemma_changes_quiet(d, prev, cur, present);
        let p = prefixes.last();
        let before = group_or_empty(prev.groups, p);
        let after = group_or_empty(cur.groups, p);
        let removed = removed_names(keys_of(before.tools) + lookup_names(prev.unlisted, p), after.tools, present, p);
        assert(unloaded_line(p, removed).len() == 0 <==> removed.len() == 0);
        assert forall|i: int| 0 <= i < d.len() implies d[i] == #[trigger] prefixes[i] by {}
        let c = changes(prefixes, prev, cur, present);
        if forall|i: int| 0 <= i < prefixes.len() ==> quiet_under(#[trigger] prefixes[i], prev, cur, present) {
            assert(quiet_under(prefixes[prefixes.len() - 1], prev, cur, present));
            assert forall|i: int| 0 <= i < d.len() implies quiet_under(#[trigger] d[i], prev, cur, present) by {
                assert(quiet_under(prefixes[i], prev, cur, present));
            }
        }
        if c.loaded.len() == 0 && c.updated.len() == 0 && c.unloaded.len() == 0 {
            assert forall|i: int| 0 <= i < prefixes.len() implies quiet_under(#[trigger] prefixes[i], prev, cur, present) by {
                if i < d.len() {
                    assert(quiet_under(d[i], prev, cur, present));
                }
            }
        }
    }
}

proof fn lemma_collect_set_iff(s: Seq<Seq<char>>)
    ensures
        forall|x: Seq<char>| #[trigger] collect_set(s).contains(x) <==> s.contains(x),
    decreases s.len(),
{
    if s.len() > 0 {
        let d = s.drop_last();
        lemma_collect_set_iff(d);
        lemma_set_put_iff(collect_set(d), s.last());
        assert forall|x: Seq<char>| s.contains(x) <==> (d.contains(x) || x == s.last()) by {
            if s.contains(x) {
                let j = choose|j: int| 0 <= j < s.len() && s[j] == x;
                if j < d.len() {
                    assert(d[j] == x);
                }
            }
            if d.contains(x) {
                let j = choose|j: int| 0 <= j < d.len() && d[j] == x;
                assert(s[j] == x);
            }
        }
    }
}

/// What changed is said only when something did: the changes render to
/// nothing exactly when, under every prefix of either catalog or kept
/// unlisted, nothing changed (see [`quiet_under`]) and as many tools are
/// past the budget as before. A name is unloaded under a prefix exactly
/// when it was listed or kept unlisted there before, is not listed there
/// now, and is no longer callable ([`lemma_removed_names_are_gone`]).
pub proof fn lemma_changes_none_iff_quiet(prev: SnapM, cur: SnapM, present: Seq<Seq<char>>)
    ensures
        render_changes_spec(prev, cur, present) is None <==> (cur.omitted == prev.omitted && forall|q: Seq<char>|
            #[trigger] (keys_of(prev.groups) + keys_of(prev.unlisted) + keys_of(cur.groups)).contains(q) ==> quiet_under(
                q,
                prev,
                cur,
                present,
            )),
{
    let all = keys_of(prev.groups) + keys_of(prev.unlisted) + keys_of(cur.groups);
    let cp = change_prefixes(prev, cur);
    lemma_collect_set_iff(all);
    lemma_changes_quiet(cp, prev, cur, present);
    let quiet_all = forall|q: Seq<char>| #[trigger] all.contains(q) ==> quiet_under(q, prev, cur, present);
    let quiet_cp = forall|i: int| 0 <= i < cp.len() ==> quiet_under(#[trigger] cp[i], prev, cur, present);
    if quiet_all {
        assert forall|i: int| 0 <= i < cp.len() implies quiet_under(#[trigger] cp[i], prev, cur, present) by {
            assert(cp.contains(cp[i]));
            assert(all.contains(cp[i]));
        }
    }
    if quiet_cp {
        assert forall|q: Seq<char>| #[trigger] all.contains(q) implies quiet_under(q, prev, cur, present) by {
            assert(cp.contains(q));
            let i = choose|i: int| 0 <= i < cp.len() && cp[i] == q;
            assert(quiet_under(cp[i], prev, cur, present));
        }
    }
}

/// Whether `s` holds no `<` and no `>`.
pub open spec fn no_tags(s: Seq<char>) -> bool {
    forall|i: int| 0 <= i < s.len() ==> #[trigger] s[i] != '<' && s[i] != '>'
}

proof fn lemma_no_tags_concat(a: Seq<char>, b: Seq<char>)
    requires
        no_tags(a),
        no_tags(b),
    ensures
        no_tags(a + b),
{
    assert forall|i: int| 0 <= i < (a + b).len() implies #[trigger] (a + b)[i] != '<' && (a + b)[i] != '>' by {
        if i < a.len() {
            assert((a + b)[i] == a[i]);
        } else {
            assert((a + b)[i] == b[i - a.len()]);
        }
    }
}

proof fn lemma_escape_no_tags(s: Seq<char>)
    ensures
        no_tags(escape(s)),
{
    lemma_escape_has_no_tags(s);
}

proof fn lemma_heading_no_tags(indent: Seq<char>, label: Seq<char>, description: Seq<char>)
    requires
        no_tags(indent),
    ensures
        no_tags(heading(indent, label, description)),
{
    lemma_escape_no_tags(label);
    lemma_escape_no_tags(description);
    lemma_no_tags_concat(indent, escape(label));
    let d = if description.len() > 0 {
        seq![' ', '—', ' '] + escape(description)
    } else {
        seq![]
    };
    lemma_no_tags_concat(seq![' ', '—', ' '], escape(description));
    lemma_no_tags_concat(indent + escape(label), d);
    lemma_no_tags_concat(indent + escape(label) + d, seq!['\n']);
}

proof fn lemma_tool_lines_no_tags(indent: Seq<char>, tools: Seq<(Seq<char>, Seq<char>)>)
    requires
        no_tags(indent),
    ensures
        no_tags(tool_lines(indent, tools)),
    decreases tools.len(),
{
    if tools.len() > 0 {
        lemma_tool_lines_no_tags(indent, tools.drop_last());
        let (name, description) = tools.last();
        lemma_escape_no_tags(name);
        lemma_escape_no_tags(description);
        lemma_no_tags_concat(indent, seq!['-', ' ']);
        lemma_no_tags_concat(indent + seq!['-', ' '], escape(name));
        let d = if description.len() > 0 {
            seq![':', ' '] + escape(description)
        } else {
            seq![]
        };
        lemma_no_tags_concat(seq![':', ' '], escape(description));
        lemma_no_tags_concat(indent + seq!['-', ' '] + escape(name), d);
        lemma_no_tags_concat(indent + seq!['-', ' '] + escape(name) + d, seq!['\n']);
        lemma_no_tags_concat(tool_lines(indent, tools.drop_last()), tool_line(indent, name, description));
    }
}

proof fn lemma_groups_text_no_tags(listing: Seq<ListingM>, current: Seq<(Seq<char>, GroupM)>)
    ensures
        no_tags(groups_text(listing, current).0),
    decreases listing.len(),
{
    if listing.len() > 0 {
        lemma_groups_text_no_tags(listing.drop_last(), current);
        let (text, last_top) = groups_text(listing.drop_last(), current);
        let (prefix, description, tools) = listing.last();
        let (top, sub) = split_prefix(prefix);
        let top_heading = if last_top != Some(top) {
            heading(seq![], group_label(top), top_description(current, top))
        } else {
            seq![]
        };
        let indent: Seq<char> = if sub.len() == 0 { seq![] } else { seq![' ', ' '] };
        let sub_heading = if sub.len() == 0 { seq![] } else { heading(seq![' ', ' '], sub, description) };
        lemma_heading_no_tags(seq![], group_label(top), top_description(current, top));
        lemma_heading_no_tags(seq![' ', ' '], sub, description);
        lemma_tool_lines_no_tags(indent, tools);
        lemma_no_tags_concat(text, top_heading);
        lemma_no_tags_concat(text + top_heading, sub_heading);
        lemma_no_tags_concat(text + top_heading + sub_heading, tool_lines(indent, tools));
    }
}

/// The whole catalog is the intro, then the groups, then the omitted line:
/// nothing after the intro can open or close a tag, whatever the tools'
/// names and descriptions, and the omitted line is there exactly when some
/// tools are past the budget.
pub proof fn lemma_full_rendering_shape(cur: SnapM)
    ensures
        render_full_spec(cur) == seq!['\n'] + FULL_INTRO@ + groups_text(full_listing(cur.groups), cur.groups).0
            + omitted_line(cur.omitted),
        no_tags(groups_text(full_listing(cur.groups), cur.groups).0),
        omitted_line(cur.omitted).len() > 0 <==> cur.omitted > 0,
{
    lemma_groups_text_no_tags(full_listing(cur.groups), cur.groups);
    if cur.omitted > 0 {
        reveal_strlit(" more not listed; filter `ALL_TOOLS` by name to find them.\n");
    }
}

/// Total length of `names`.
pub open spec fn names_len(names: Seq<Seq<char>>) -> int
    decreases names.len(),
{
    if names.len() == 0 {
        0
    } else {
        names_len(names.drop_last()) + names.last().len()
    }
}

/// Where the `i`-th of `names` starts when they are written one after the
/// other with `sep` between them.
pub open spec fn name_offset(names: Seq<Seq<char>>, sep: Seq<char>, i: int) -> int {
    names_len(names.take(i)) + i * sep.len()
}

/// Names joined by a separator: the text is each name in turn, `sep`
/// between two names, so every name stands whole at its place and the text
/// is as long as the names and the separators together.
pub proof fn lemma_join_names_every_name(names: Seq<Seq<char>>, sep: Seq<char>)
    ensures
        names.len() > 0 ==> join(names, sep).len() == names_len(names) + (names.len() - 1) * sep.len(),
        forall|i: int|
            0 <= i < names.len() ==> #[trigger] join(names, sep).subrange(
                name_offset(names, sep, i),
                name_offset(names, sep, i) + names[i].len(),
            ) == names[i],
        forall|i: int|
            0 < i < names.len() ==> #[trigger] join(names, sep).subrange(
                name_offset(names, sep, i) - sep.len(),
                name_offset(names, sep, i),
            ) == sep,
    decreases names.len(),
{
    if names.len() == 0 {
    } else if names.len() == 1 {
        assert(names.take(0).len() == 0);
        assert(names_len(names.take(0)) == 0);
        assert(names.drop_last().len() == 0);
        assert(names_len(names.drop_last()) == 0);
        assert(names_len(names) == names[0].len());
        assert((names.len() - 1) * sep.len() == 0 && 0 * sep.len() == 0) by (nonlinear_arith)
            requires
                names.len() == 1,
        ;
        assert(name_offset(names, sep, 0) == 0);
        assert(join(names, sep).subrange(0, names[0].len() as int) =~= names[0]);
    } else {
        let d = names.drop_last();
        let n = names.len() - 1;
        lemma_join_names_every_name(d, sep);
        let jd = join(d, sep);
        let j = join(names, sep);
        assert(j == jd + sep + names.last());
        assert(names.take(n) =~= d);
        assert(names_len(names) == names_len(d) + names.last().len());
        assert(jd.len() + sep.len() == names_len(d) + (names.len() - 1) * sep.len()) by (nonlinear_arith)
            requires
                jd.len() == names_len(d) + (d.len() - 1) * sep.len(),
                d.len() >= 1,
                d.len() == names.len() - 1,
        ;
        assert forall|i: int| 0 <= i < names.len() implies #[trigger] j.subrange(
            name_offset(names, sep, i),
            name_offset(names, sep, i) + names[i].len(),
        ) == names[i] by {
            if i < n {
                assert(names.take(i) =~= d.take(i));
                assert(names[i] == d[i]);
                assert(name_offset(names, sep, i) == name_offset(d, sep, i));
                lemma_name_offset_bound(d, sep, i);
                assert(j.subrange(name_offset(names, sep, i), name_offset(names, sep, i) + names[i].len())
                    =~= jd.subrange(name_offset(d, sep, i), name_offset(d, sep, i) + d[i].len()));
            } else {
                assert(name_offset(names, sep, n) == jd.len() + sep.len()) by (nonlinear_arith)
                    requires
                        name_offset(names, sep, n) == names_len(d) + n * sep.len(),
                        jd.len() == names_len(d) + (n - 1) * sep.len(),
                ;
                assert(j.subrange(name_offset(names, sep, i), name_offset(names, sep, i) + names[i].len()) =~= names[i]);
            }
        }
        assert forall|i: int| 0 < i < names.len() implies #[trigger] j.subrange(
            name_offset(names, sep, i) - sep.len(),
            name_offset(names, sep, i),
        ) == sep by {
            if i < n {
                assert(names.take(i) =~= d.take(i));
                assert(name_offset(names, sep, i) == name_offset(d, sep, i));
                lemma_name_offset_bound(d, sep, i);
                assert(j.subrange(name_offset(names, sep, i) - sep.len(), name_offset(names, sep, i))
                    =~= jd.subrange(name_offset(d, sep, i) - sep.len(), name_offset(d, sep, i)));
            } else {
                assert(name_offset(names, sep, n) == jd.len() + sep.len()) by (nonlinear_arith)
                    requires
                        name_offset(names, sep, n) == names_len(d) + n * sep.len(),
                        jd.len() == names_len(d) + (n - 1) * sep.len(),
                ;
                assert(j.subrange(name_offset(names, sep, i) - sep.len(), name_offset(names, sep, i)) =~= sep);
            }
        }
    }
}

proof fn lemma_names_len_nonneg(names: Seq<Seq<char>>)
    ensures
        names_len(names) >= 0,
    decreases names.len(),
{
    if names.len() > 0 {
        lemma_names_len_nonneg(names.drop_last());
    }
}

proof fn lemma_names_len_take(names: Seq<Seq<char>>, i: int)
    requires
        0 <= i < names.len(),
    ensures
        names_len(names.take(i + 1)) == names_len(names.take(i)) + names[i].len(),
        names_len(names.take(i)) <= names_len(names),
    decreases names.len() - i,
{
    assert(names.take(i + 1).drop_last() =~= names.take(i));
    if i + 1 < names.len() {
        lemma_names_len_take(names, i + 1);
        lemma_names_len_take_le(names, i + 1);
    } else {
        assert(names.take(i + 1) =~= names);
    }
    lemma_names_len_nonneg(names.take(i));
}

proof fn lemma_names_len_take_le(names: Seq<Seq<char>>, i: int)
    requires
        0 <= i <= names.len(),
    ensures
        names_len(names.take(i)) <= names_len(names),
    decreases names.len() - i,
{
    if i < names.len() {
        lemma_names_len_take_le(names, i + 1);
        assert(names.take(i + 1).drop_last() =~= names.take(i));
    } else {
        assert(names.take(i) =~= names);
    }
}

proof fn lemma_name_offset_bound(names: Seq<Seq<char>>, sep: Seq<char>, i: int)
    requires
        0 <= i < names.len(),
    ensures
        name_offset(names, sep, i) >= i * sep.len(),
        name_offset(names, sep, i) >= 0,
        i >= 1 ==> name_offset(names, sep, i) >= sep.len(),
        name_offset(names, sep, i) + names[i].len() <= names_len(names) + (names.len() - 1) * sep.len(),
{
    assert(i * sep.len() >= 0 && (i >= 1 ==> i * sep.len() >= sep.len())) by (nonlinear_arith)
        requires
            i >= 0,
            sep.len() >= 0,
    ;
    lemma_names_len_take(names, i);
    lemma_names_len_take_le(names, i + 1);
    lemma_names_len_nonneg(names.take(i));
    assert(i * sep.len() <= (names.len() - 1) * sep.len()) by (nonlinear_arith)
        requires
            0 <= i <= names.len() - 1,
            sep.len() >= 0,
    ;
}

proof fn lemma_escape_concat(a: Seq<char>, b: Seq<char>)
    ensures
        escape(a + b) == escape(a) + escape(b),
    decreases b.len(),
{
    if b.len() == 0 {
        assert(a + b =~= a);
        assert(escape(b) == Seq::<char>::empty());
        assert(escape(a) + escape(b) =~= escape(a));
    } else {
        lemma_escape_concat(a, b.drop_last());
        assert((a + b).drop_last() =~= a + b.drop_last());
        assert((a + b).last() == b.last());
        assert(escape(a + b) =~= escape(a) + escape(b));
    }
}

/// The names escaped one by one.
pub open spec fn escape_all(names: Seq<Seq<char>>) -> Seq<Seq<char>> {
    names.map_values(|n: Seq<char>| escape(n))
}

proof fn lemma_escape_join(names: Seq<Seq<char>>, sep: Seq<char>)
    ensures
        escape(join(names, sep)) == join(escape_all(names), escape(sep)),
    decreases names.len(),
{
    if names.len() == 0 {
        assert(escape(Seq::<char>::empty()) == Seq::<char>::empty());
    } else if names.len() == 1 {
    } else {
        let d = names.drop_last();
        lemma_escape_join(d, sep);
        assert(escape_all(names).drop_last() =~= escape_all(d));
        lemma_escape_concat(join(d, sep), sep);
        lemma_escape_concat(join(d, sep) + sep, names.last());
    }
}

/// Where the `i`-th removed name stands in the unloaded line of `p`.
pub open spec fn unloaded_offset(p: Seq<char>, removed: Seq<Seq<char>>, i: int) -> int {
    4 + escape(group_label(p)).len() + name_offset(escape_all(removed), seq![',', ' '], i)
}

/// The unloaded line of a group names every removed tool: each removed
/// name stands whole (escaped) at its place in the line, names separated
/// by `, `, so no removed tool is left out.
pub proof fn lemma_unloaded_line_names_every_tool(p: Seq<char>, removed: Seq<Seq<char>>)
    ensures
        forall|i: int|
            0 <= i < removed.len() ==> #[trigger] unloaded_line(p, removed).subrange(
                unloaded_offset(p, removed, i),
                unloaded_offset(p, removed, i) + escape(removed[i]).len(),
            ) == escape(removed[i]),
{
    let sep = seq![',', ' '];
    assert(escape(sep) =~= sep) by {
        let c1: Seq<char> = seq![','];
        assert(sep.drop_last() =~= c1);
        assert(c1.drop_last() =~= Seq::<char>::empty());
        assert(escape(c1.drop_last()) == Seq::<char>::empty());
        assert(c1.last() == ',');
        assert(escape(c1) =~= c1);
        assert(sep.last() == ' ');
    }
    lemma_escape_join(removed, sep);
    let es = escape_all(removed);
    lemma_join_names_every_name(es, sep);
    if removed.len() > 0 {
        let head = seq!['-', ' '] + escape(group_label(p)) + seq![':', ' '];
        let line = unloaded_line(p, removed);
        let body = join(es, sep);
        assert(line == head + body + seq!['\n']);
        assert forall|i: int| 0 <= i < removed.len() implies #[trigger] line.subrange(
            unloaded_offset(p, removed, i),
            unloaded_offset(p, removed, i) + escape(removed[i]).len(),
        ) == escape(removed[i]) by {
            assert(es[i] == escape(removed[i]));
            lemma_name_offset_bound(es, sep, i);
            assert(body.subrange(name_offset(es, sep, i), name_offset(es, sep, i) + es[i].len()) == es[i]);
            assert(line.subrange(unloaded_offset(p, removed, i), unloaded_offset(p, removed, i) + es[i].len())
                =~= body.subrange(name_offset(es, sep, i), name_offset(es, sep, i) + es[i].len()));
        }
    }
}

} // verus!
