//! What the catalog's listing costs, and the promise that the tools listed
//! last time go first.

use vstd::prelude::*;
use crate::tool_catalog::EntryM;
use crate::tool_catalog::GroupM;
use crate::tool_catalog::SelM;
use crate::tool_catalog::SnapM;
use crate::tool_catalog::MAX_LISTED_BYTES;
use crate::tool_catalog::entry_cost;
use crate::tool_catalog::flat;
use crate::tool_catalog::group_entries;
use crate::tool_catalog::lemma_flat_upto;
use crate::tool_catalog::listed_flags;
use crate::tool_catalog::select_pass;
use crate::tool_catalog::select_step;
use crate::tool_catalog::selection;
use crate::tool_catalog::utf8_len;
use crate::tool_catalog::lemma_selection_within_budget;
use crate::tool_catalog::ToolM;
use crate::tool_catalog::build_all;
use crate::tool_catalog::new_spec;
use crate::tool_catalog::is_listed_in;
use crate::tool_catalog::count_true;
use crate::tool_catalog::tool_from_input;
use crate::tool_catalog::lemma_build_all_sorted;
use crate::tool_catalog::lemma_build_all_from;
use crate::tool_catalog::lemma_listed_groups_match_choice;
use crate::tool_catalog::lemma_selection_len;
use crate::tool_catalog::lemma_listed_count_is_chosen;
use crate::tool_catalog::triples;
use crate::tool_catalog::base_of;
use crate::tool_catalog::kept_tools;
use crate::tool_catalog::keep_flagged;
use crate::tool_catalog::listed_groups;
use crate::tool_catalog::listed_groups_upto;
use crate::tool_catalog::flat_upto;
use crate::tool_catalog::lemma_flat_at;
use crate::tool_catalog::lemma_flat_locate;
use crate::tool_catalog::lemma_flat_prefix;
use crate::tool_catalog::lemma_kf_in;
use crate::tool_catalog::lemma_kf_from;
use crate::tool_catalog::tools_wf_m;
use crate::tool_catalog::lemma_build_all_count;
use crate::assoc::lookup;
use crate::assoc::sorted_keys;

verus! {

/// Bytes of an entry's line.
pub open spec fn line_cost(e: EntryM) -> int {
    (utf8_len(e.name) + utf8_len(e.desc) + 7) as int
}

/// Bytes of group `g`'s heading.
pub open spec fn group_head(all: Seq<(Seq<char>, GroupM)>, g: int) -> int {
    (utf8_len(all[g].0) + utf8_len(all[g].1.description) + 6) as int
}

/// The lines of the chosen entries among the first `n`.
pub open spec fn lines(es: Seq<EntryM>, chosen: Seq<bool>, n: int) -> int
    decreases n,
{
    if n <= 0 {
        0
    } else {
        lines(es, chosen, n - 1) + if chosen[n - 1] {
            line_cost(es[n - 1])
        } else {
            0
        }
    }
}

/// Whether an entry of group `g` is chosen.
pub open spec fn any_in(es: Seq<EntryM>, chosen: Seq<bool>, g: int) -> bool {
    exists|k: int| 0 <= k < es.len() && #[trigger] chosen[k] && es[k].gi == g
}

/// The headings of the first `m` groups that have a chosen entry.
pub open spec fn heads(all: Seq<(Seq<char>, GroupM)>, es: Seq<EntryM>, chosen: Seq<bool>, m: int) -> int
    decreases m,
{
    if m <= 0 {
        0
    } else {
        heads(all, es, chosen, m - 1) + if any_in(es, chosen, m - 1) {
            group_head(all, m - 1)
        } else {
            0
        }
    }
}

/// What a choice of entries costs in the listing: each chosen line, and
/// each heading of a group with a chosen entry, once.
pub open spec fn charged(all: Seq<(Seq<char>, GroupM)>, chosen: Seq<bool>) -> int {
    lines(flat(all), chosen, flat(all).len() as int) + heads(all, flat(all), chosen, all.len() as int)
}

proof fn lemma_lines_add(es: Seq<EntryM>, c: Seq<bool>, k: int, n: int)
    requires
        0 <= k < c.len(),
        !c[k],
        n <= c.len(),
    ensures
        lines(es, c.update(k, true), n) == lines(es, c, n) + if k < n {
            line_cost(es[k])
        } else {
            0
        },
    decreases n,
{
    if n > 0 {
        lemma_lines_add(es, c, k, n - 1);
    }
}

proof fn lemma_heads_add(all: Seq<(Seq<char>, GroupM)>, es: Seq<EntryM>, c: Seq<bool>, k: int, m: int)
    requires
        0 <= k < c.len(),
        c.len() == es.len(),
        !c[k],
    ensures
        heads(all, es, c.update(k, true), m) == heads(all, es, c, m) + if 0 <= es[k].gi < m && !any_in(
            es,
            c,
            es[k].gi,
        ) {
            group_head(all, es[k].gi)
        } else {
            0
        },
    decreases m,
{
    if m > 0 {
        lemma_heads_add(all, es, c, k, m - 1);
        let c2 = c.update(k, true);
        let h = m - 1;
        if h == es[k].gi {
            assert(c2[k]);
            assert(any_in(es, c2, h));
        } else {
            if any_in(es, c2, h) {
                let j = choose|j: int| 0 <= j < es.len() && #[trigger] c2[j] && es[j].gi == h;
                assert(j != k);
                assert(c[j]);
            }
            if any_in(es, c, h) {
                let j = choose|j: int| 0 <= j < es.len() && #[trigger] c[j] && es[j].gi == h;
                assert(c2[j]);
            }
        }
    }
}

proof fn lemma_lines_mono(es: Seq<EntryM>, a: Seq<bool>, b: Seq<bool>, n: int)
    requires
        a.len() == b.len(),
        n <= a.len(),
        forall|k: int| 0 <= k < a.len() && a[k] ==> b[k],
    ensures
        lines(es, a, n) <= lines(es, b, n),
    decreases n,
{
    if n > 0 {
        lemma_lines_mono(es, a, b, n - 1);
    }
}

proof fn lemma_heads_mono(all: Seq<(Seq<char>, GroupM)>, es: Seq<EntryM>, a: Seq<bool>, b: Seq<bool>, m: int)
    requires
        a.len() == b.len(),
        a.len() == es.len(),
        forall|k: int| 0 <= k < a.len() && a[k] ==> b[k],
    ensures
        heads(all, es, a, m) <= heads(all, es, b, m),
    decreases m,
{
    if m > 0 {
        lemma_heads_mono(all, es, a, b, m - 1);
        if any_in(es, a, m - 1) {
            let j = choose|j: int| 0 <= j < es.len() && #[trigger] a[j] && es[j].gi == m - 1;
            assert(b[j]);
        }
    }
}

proof fn lemma_no_lines(es: Seq<EntryM>, c: Seq<bool>, n: int)
    requires
        forall|k: int| 0 <= k < c.len() ==> !c[k],
        n <= c.len(),
    ensures
        lines(es, c, n) == 0,
    decreases n,
{
    if n > 0 {
        lemma_no_lines(es, c, n - 1);
    }
}

proof fn lemma_no_heads(all: Seq<(Seq<char>, GroupM)>, es: Seq<EntryM>, c: Seq<bool>, m: int)
    requires
        forall|k: int| 0 <= k < c.len() ==> !c[k],
        c.len() == es.len(),
    ensures
        heads(all, es, c, m) == 0,
    decreases m,
{
    if m > 0 {
        lemma_no_heads(all, es, c, m - 1);
        assert(!any_in(es, c, m - 1));
    }
}

/// What every selection state keeps: the paid headings are those of the
/// groups with a chosen entry, and what is left is the budget less the cost
/// of the chosen entries.
pub open spec fn accounted(all: Seq<(Seq<char>, GroupM)>, st: SelM) -> bool {
    &&& st.chosen.len() == flat(all).len()
    &&& st.paid.len() == all.len()
    &&& forall|g: int| 0 <= g < all.len() ==> st.paid[g] == any_in(flat(all), st.chosen, g)
    &&& st.remaining == MAX_LISTED_BYTES - charged(all, st.chosen)
}

proof fn lemma_step_accounted(all: Seq<(Seq<char>, GroupM)>, listed: Seq<bool>, sticky: bool, st: SelM, k: int)
    requires
        accounted(all, st),
        0 <= k < flat(all).len(),
        listed[k] == sticky ==> !st.chosen[k],
    ensures
        accounted(all, select_step(st, flat(all)[k], listed[k], sticky, k)),
        listed[k] == sticky && entry_cost(flat(all)[k], st.paid[flat(all)[k].gi]) <= st.remaining ==> select_step(
            st,
            flat(all)[k],
            listed[k],
            sticky,
            k,
        ).chosen == st.chosen.update(k, true),
        listed[k] == sticky ==> entry_cost(flat(all)[k], st.paid[flat(all)[k].gi]) == charged(
            all,
            st.chosen.update(k, true),
        ) - charged(all, st.chosen),
        forall|j: int|
            0 <= j < st.chosen.len() && #[trigger] select_step(st, flat(all)[k], listed[k], sticky, k).chosen[j]
                ==> st.chosen[j] || (j == k && listed[k] == sticky),
        forall|j: int|
            0 <= j < st.chosen.len() && st.chosen[j] ==> #[trigger] select_step(
                st,
                flat(all)[k],
                listed[k],
                sticky,
                k,
            ).chosen[j],
{
    let es = flat(all);
    lemma_flat_upto(all, all.len() as int);
    let e = es[k];
    assert(e == group_entries(all, e.gi)[e.ti]);
    if listed[k] == sticky {
        let c2 = st.chosen.update(k, true);
        lemma_lines_add(es, st.chosen, k, es.len() as int);
        lemma_heads_add(all, es, st.chosen, k, all.len() as int);
        assert(st.paid[e.gi] == any_in(es, st.chosen, e.gi));
        let cost = entry_cost(e, st.paid[e.gi]);
        if cost <= st.remaining {
            let st2 = select_step(st, e, listed[k], sticky, k);
            assert(st2.chosen == c2);
            assert forall|g: int| 0 <= g < all.len() implies st2.paid[g] == any_in(es, c2, g) by {
                if g == e.gi {
                    assert(c2[k]);
                } else {
                    if any_in(es, c2, g) {
                        let j = choose|j: int| 0 <= j < es.len() && #[trigger] c2[j] && es[j].gi == g;
                        assert(st.chosen[j]);
                    }
                    if any_in(es, st.chosen, g) {
                        let j = choose|j: int| 0 <= j < es.len() && #[trigger] st.chosen[j] && es[j].gi == g;
                        assert(c2[j]);
                    }
                }
            }
        }
    }
}

proof fn lemma_pass_accounted(all: Seq<(Seq<char>, GroupM)>, listed: Seq<bool>, sticky: bool, st: SelM, n: int)
    requires
        accounted(all, st),
        0 <= n <= flat(all).len(),
        listed.len() == flat(all).len(),
        forall|j: int| 0 <= j < flat(all).len() && listed[j] == sticky ==> !st.chosen[j],
    ensures
        accounted(all, select_pass(flat(all), listed, sticky, st, n)),
        forall|j: int|
            0 <= j < flat(all).len() && #[trigger] select_pass(flat(all), listed, sticky, st, n).chosen[j]
                ==> st.chosen[j] || (j < n && listed[j] == sticky),
        forall|j: int|
            0 <= j < flat(all).len() && st.chosen[j] ==> #[trigger] select_pass(flat(all), listed, sticky, st, n).chosen[j],
    decreases n,
{
    if n > 0 {
        lemma_pass_accounted(all, listed, sticky, st, n - 1);
        let st1 = select_pass(flat(all), listed, sticky, st, n - 1);
        lemma_step_accounted(all, listed, sticky, st1, n - 1);
    }
}

/// Over the first `n` entries, the pass that takes the tools listed last
/// time takes every one of them, when together they fit the budget.
proof fn lemma_sticky_pass_takes_all(all: Seq<(Seq<char>, GroupM)>, listed: Seq<bool>, st0: SelM, n: int)
    requires
        accounted(all, st0),
        forall|j: int| 0 <= j < flat(all).len() ==> !st0.chosen[j],
        0 <= n <= flat(all).len(),
        listed.len() == flat(all).len(),
        charged(all, listed) <= MAX_LISTED_BYTES,
    ensures
        forall|j: int| 0 <= j < flat(all).len() ==> #[trigger] select_pass(flat(all), listed, true, st0, n).chosen[j]
            == (j < n && listed[j]),
    decreases n,
{
    if n > 0 {
        lemma_sticky_pass_takes_all(all, listed, st0, n - 1);
        lemma_pass_accounted(all, listed, true, st0, n - 1);
        let st1 = select_pass(flat(all), listed, true, st0, n - 1);
        let k = n - 1;
        lemma_step_accounted(all, listed, true, st1, k);
        if listed[k] {
            let c2 = st1.chosen.update(k, true);
            lemma_lines_mono(flat(all), c2, listed, flat(all).len() as int);
            lemma_heads_mono(all, flat(all), c2, listed, all.len() as int);
            assert(select_pass(flat(all), listed, true, st0, n).chosen == c2);
        }
    }
}

/// Tools listed last time go first: when together they fit the budget,
/// every one of them is listed again, whatever tools arrived since.
pub proof fn lemma_listed_tools_go_first(all: Seq<(Seq<char>, GroupM)>, prev: Option<SnapM>)
    requires
        charged(all, listed_flags(flat(all), prev)) <= MAX_LISTED_BYTES,
    ensures
        forall|k: int|
            0 <= k < flat(all).len() && listed_flags(flat(all), prev)[k] ==> #[trigger] selection(all, prev).chosen[k],
{
    let es = flat(all);
    let listed = listed_flags(es, prev);
    let st0 = SelM {
        remaining: MAX_LISTED_BYTES as int,
        paid: Seq::new(all.len(), |i: int| false),
        chosen: Seq::new(es.len(), |i: int| false),
    };
    lemma_no_lines(es, st0.chosen, es.len() as int);
    lemma_no_heads(all, es, st0.chosen, all.len() as int);
    assert forall|g: int| 0 <= g < all.len() implies st0.paid[g] == any_in(es, st0.chosen, g) by {
        assert(!any_in(es, st0.chosen, g));
    }
    assert(accounted(all, st0));
    lemma_sticky_pass_takes_all(all, listed, st0, es.len() as int);
    lemma_pass_accounted(all, listed, true, st0, es.len() as int);
    let st1 = select_pass(es, listed, true, st0, es.len() as int);
    lemma_pass_accounted(all, listed, false, st1, es.len() as int);
}

/// The listing stays within its budget: the chosen entries, each line and
/// each group heading once, cost at most [`MAX_LISTED_BYTES`].
pub proof fn lemma_listing_fits_budget(all: Seq<(Seq<char>, GroupM)>, prev: Option<SnapM>)
    ensures
        charged(all, selection(all, prev).chosen) <= MAX_LISTED_BYTES,
{
    let es = flat(all);
    let listed = listed_flags(es, prev);
    let st0 = SelM {
        remaining: MAX_LISTED_BYTES as int,
        paid: Seq::new(all.len(), |i: int| false),
        chosen: Seq::new(es.len(), |i: int| false),
    };
    lemma_no_lines(es, st0.chosen, es.len() as int);
    lemma_no_heads(all, es, st0.chosen, all.len() as int);
    assert forall|g: int| 0 <= g < all.len() implies st0.paid[g] == any_in(es, st0.chosen, g) by {
        assert(!any_in(es, st0.chosen, g));
    }
    lemma_pass_accounted(all, listed, true, st0, es.len() as int);
    let st1 = select_pass(es, listed, true, st0, es.len() as int);
    lemma_pass_accounted(all, listed, false, st1, es.len() as int);
    lemma_selection_within_budget(all, prev);
}

proof fn lemma_count_true_bound(s: Seq<bool>)
    ensures
        count_true(s) <= s.len(),
    decreases s.len(),
{
    if s.len() > 0 {
        lemma_count_true_bound(s.drop_last());
    }
}

/// Tool `n` is listed under prefix `p` in `groups` as one of the input
/// tools, with that tool's short description.
pub open spec fn listed_as_input(tools: Seq<ToolM>, groups: Seq<(Seq<char>, GroupM)>, p: Seq<char>, n: Seq<char>) -> bool {
    match lookup(groups, p) {
        Some(g) => match lookup(g.tools, n) {
            Some(d) => tool_from_input(tools, p, (n, d)),
            None => false,
        },
        None => false,
    }
}

/// A new catalog lists exactly the tools it chose, its groups in ascending
/// prefix order: every listed tool is an
/// input tool under its group prefix with its short description, no group
/// is empty, every chosen tool is listed, what the chosen tools cost (each
/// line, and each group heading once) stays within [`MAX_LISTED_BYTES`],
/// and the omitted count is the number of tools not chosen, which is the
/// number of tools not listed (of the input tools, when no two share a
/// global name).
pub proof fn lemma_new_catalog_lists_its_choice(tools: Seq<ToolM>, prev: Option<SnapM>)
    ensures
        ({
            let all = build_all(tools);
            let chosen = selection(all, prev).chosen;
            let c = new_spec(tools, prev).catalog;
            &&& sorted_keys(c.groups)
            &&& forall|g: int| 0 <= g < c.groups.len() ==> #[trigger] c.groups[g].1.tools.len() > 0
            &&& forall|p: Seq<char>, n: Seq<char>| #[trigger] is_listed_in(c.groups, p, n) ==> listed_as_input(tools, c.groups, p, n)
            &&& forall|k: int| 0 <= k < flat(all).len() && #[trigger] chosen[k] ==> is_listed_in(c.groups, flat(all)[k].prefix, flat(all)[k].name)
            &&& charged(all, chosen) <= MAX_LISTED_BYTES
            &&& c.omitted == flat(all).len() - count_true(chosen)
            &&& c.omitted == flat(all).len() - triples(c.groups).len()
            &&& tools_wf_m(tools) ==> c.omitted == tools.len() - triples(c.groups).len()
        }),
{
    let all = build_all(tools);
    let chosen = selection(all, prev).chosen;
    let c = new_spec(tools, prev).catalog;
    lemma_build_all_sorted(tools);
    lemma_build_all_from(tools);
    lemma_selection_len(all, prev);
    lemma_listed_groups_match_choice(all, chosen);
    lemma_listing_fits_budget(all, prev);
    lemma_flat_upto(all, all.len() as int);
    lemma_count_true_bound(chosen);
    lemma_listed_count_is_chosen(all, chosen);
    if tools_wf_m(tools) {
        lemma_build_all_count(tools);
    }
    assert forall|p: Seq<char>, n: Seq<char>| #[trigger] is_listed_in(c.groups, p, n) implies listed_as_input(tools, c.groups, p, n) by {
        let k = choose|k: int| 0 <= k < flat(all).len() && chosen[k] && flat(all)[k].prefix == p && flat(all)[k].name == n;
        let e = flat(all)[k];
        assert(e == group_entries(all, e.gi)[e.ti]);
        assert(tool_from_input(tools, all[e.gi].0, all[e.gi].1.tools[e.ti]));
    }
    assert forall|k: int| 0 <= k < flat(all).len() && #[trigger] chosen[k] implies is_listed_in(c.groups, flat(all)[k].prefix, flat(all)[k].name) by {
    }
}

/// Tools listed last time are listed again, whatever tools arrived since,
/// when together they fit the budget: when listing exactly the input tools
/// the previous catalog listed (with their current descriptions, and one
/// heading per prefix) costs at most [`MAX_LISTED_BYTES`], each of them is
/// listed, so a listed tool never drops out because another tool came.
pub proof fn lemma_listed_before_stays_listed(tools: Seq<ToolM>, prev: SnapM)
    requires
        listing_cost(listed_groups(build_all(tools), listed_flags(flat(build_all(tools)), Some(prev))))
            <= MAX_LISTED_BYTES,
    ensures
        forall|k: int|
            0 <= k < flat(build_all(tools)).len() && #[trigger] is_listed_in(
                prev.groups,
                flat(build_all(tools))[k].prefix,
                flat(build_all(tools))[k].name,
            ) ==> is_listed_in(
                new_spec(tools, Some(prev)).catalog.groups,
                flat(build_all(tools))[k].prefix,
                flat(build_all(tools))[k].name,
            ),
{
    let all = build_all(tools);
    let es = flat(all);
    let chosen = selection(all, Some(prev)).chosen;
    lemma_charged_is_listing_cost(all, listed_flags(es, Some(prev)));
    lemma_listed_tools_go_first(all, Some(prev));
    lemma_new_catalog_lists_its_choice(tools, Some(prev));
    assert forall|k: int| 0 <= k < es.len() && #[trigger] is_listed_in(prev.groups, es[k].prefix, es[k].name) implies is_listed_in(
        new_spec(tools, Some(prev)).catalog.groups,
        es[k].prefix,
        es[k].name,
    ) by {
        assert(listed_flags(es, Some(prev))[k]);
        assert(chosen[k]);
    }
}

/// Bytes of a tool's line in the listing: name, description and 7.
pub open spec fn tool_cost(t: (Seq<char>, Seq<char>)) -> int {
    (utf8_len(t.0) + utf8_len(t.1) + 7) as int
}

/// Bytes of the lines of `tools`.
pub open spec fn tools_cost(tools: Seq<(Seq<char>, Seq<char>)>) -> int
    decreases tools.len(),
{
    if tools.len() == 0 {
        0
    } else {
        tools_cost(tools.drop_last()) + tool_cost(tools.last())
    }
}

/// Bytes of a listing: for each group its heading (prefix, description and
/// 6) and the lines of its tools.
pub open spec fn listing_cost(groups: Seq<(Seq<char>, GroupM)>) -> int
    decreases groups.len(),
{
    if groups.len() == 0 {
        0
    } else {
        listing_cost(groups.drop_last()) + (utf8_len(groups.last().0) + utf8_len(groups.last().1.description) + 6)
            + tools_cost(groups.last().1.tools)
    }
}

/// Bytes of the flagged tools of `s`.
pub open spec fn flagged_cost(s: Seq<(Seq<char>, Seq<char>)>, f: Seq<bool>) -> int
    decreases s.len(),
{
    if s.len() == 0 {
        0
    } else {
        flagged_cost(s.drop_last(), f) + if f[s.len() - 1] {
            tool_cost(s.last())
        } else {
            0
        }
    }
}

proof fn lemma_kept_cost(s: Seq<(Seq<char>, Seq<char>)>, f: Seq<bool>)
    ensures
        tools_cost(keep_flagged(s, f)) == flagged_cost(s, f),
    decreases s.len(),
{
    if s.len() > 0 {
        lemma_kept_cost(s.drop_last(), f);
        let rest = keep_flagged(s.drop_last(), f);
        if f[s.len() - 1] {
            assert(rest.push(s.last()).drop_last() =~= rest);
        }
    }
}

proof fn lemma_group_lines(all: Seq<(Seq<char>, GroupM)>, chosen: Seq<bool>, g: int, m: int)
    requires
        0 <= g < all.len(),
        0 <= m <= all[g].1.tools.len(),
        chosen.len() == flat(all).len(),
    ensures
        lines(flat(all), chosen, base_of(all, g) + m) == lines(flat(all), chosen, base_of(all, g)) + flagged_cost(
            all[g].1.tools.take(m),
            chosen.subrange(base_of(all, g), base_of(all, g) + all[g].1.tools.len()),
        ),
    decreases m,
{
    let s = all[g].1.tools;
    let b = base_of(all, g);
    let f = chosen.subrange(b, b + s.len());
    lemma_flat_prefix(all, g + 1, all.len() as int);
    assert(flat_upto(all, g + 1).len() == b + s.len());
    if m == 0 {
        assert(s.take(0).len() == 0);
    } else {
        lemma_group_lines(all, chosen, g, m - 1);
        lemma_flat_at(all, g, m - 1);
        assert(s.take(m).drop_last() =~= s.take(m - 1));
        assert(s.take(m).last() == s[m - 1]);
        assert(f[m - 1] == chosen[b + m - 1]);
    }
}

proof fn lemma_any_in_iff_kept(all: Seq<(Seq<char>, GroupM)>, chosen: Seq<bool>, g: int)
    requires
        0 <= g < all.len(),
        chosen.len() == flat(all).len(),
    ensures
        any_in(flat(all), chosen, g) <==> kept_tools(all, chosen, g).len() > 0,
{
    let es = flat(all);
    let s = all[g].1.tools;
    let b = base_of(all, g);
    let f = chosen.subrange(b, b + s.len());
    lemma_flat_prefix(all, g + 1, all.len() as int);
    assert(flat_upto(all, g + 1).len() == b + s.len());
    lemma_flat_upto(all, all.len() as int);
    if any_in(es, chosen, g) {
        let k = choose|k: int| 0 <= k < es.len() && #[trigger] chosen[k] && es[k].gi == g;
        let g2 = lemma_flat_locate(all, all.len() as int, k);
        lemma_flat_at(all, g2, k - base_of(all, g2));
        assert(g2 == g);
        assert(f[k - b] == chosen[k]);
        lemma_kf_in(s, f, k - b);
    }
    if kept_tools(all, chosen, g).len() > 0 {
        lemma_kf_from(s, f, 0);
        let ti = choose|ti: int| 0 <= ti < s.len() && f[ti] && s[ti] == keep_flagged(s, f)[0];
        lemma_flat_at(all, g, ti);
        assert(chosen[b + ti] == f[ti]);
        assert(es[b + ti].gi == g);
    }
}

proof fn lemma_listing_cost_upto(all: Seq<(Seq<char>, GroupM)>, chosen: Seq<bool>, n: int)
    requires
        0 <= n <= all.len(),
        chosen.len() == flat(all).len(),
    ensures
        listing_cost(listed_groups_upto(all, chosen, n)) == lines(flat(all), chosen, base_of(all, n)) + heads(
            all,
            flat(all),
            chosen,
            n,
        ),
    decreases n,
{
    if n > 0 {
        let g = n - 1;
        lemma_listing_cost_upto(all, chosen, g);
        let s = all[g].1.tools;
        let b = base_of(all, g);
        let f = chosen.subrange(b, b + s.len());
        lemma_group_lines(all, chosen, g, s.len() as int);
        assert(s.take(s.len() as int) =~= s);
        lemma_flat_prefix(all, n, all.len() as int);
        assert(base_of(all, n) == b + s.len());
        lemma_kept_cost(s, f);
        lemma_any_in_iff_kept(all, chosen, g);
        let before = listed_groups_upto(all, chosen, g);
        let kt = kept_tools(all, chosen, g);
        if kt.len() > 0 {
            let r = before.push((all[g].0, GroupM { description: all[g].1.description, tools: kt }));
            assert(r.drop_last() =~= before);
        } else {
            assert(tools_cost(kt) == 0);
        }
    } else {
        assert(base_of(all, 0) == 0);
    }
}

/// What a choice costs is what its listing costs: the chosen lines and
/// the headings of their groups are exactly the groups listed, each with
/// its heading and the lines of its tools.
pub proof fn lemma_charged_is_listing_cost(all: Seq<(Seq<char>, GroupM)>, chosen: Seq<bool>)
    requires
        chosen.len() == flat(all).len(),
    ensures
        listing_cost(listed_groups(all, chosen)) == charged(all, chosen),
{
    lemma_listing_cost_upto(all, chosen, all.len() as int);
}

/// The listing of a new catalog costs at most [`MAX_LISTED_BYTES`]: each
/// listed tool's line (name, description and 7 bytes) and each listed
/// group's heading (prefix, description and 6 bytes), once.
pub proof fn lemma_new_listing_within_budget(tools: Seq<ToolM>, prev: Option<SnapM>)
    ensures
        listing_cost(new_spec(tools, prev).catalog.groups) <= MAX_LISTED_BYTES,
{
    let all = build_all(tools);
    lemma_selection_len(all, prev);
    lemma_charged_is_listing_cost(all, selection(all, prev).chosen);
    lemma_listing_fits_budget(all, prev);
}

} // verus!
