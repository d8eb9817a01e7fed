//! A catalog of the deferred tools a code-mode `exec` script can call.
//!
//! Each deferred nested tool is listed with a short description, grouped by
//! its `namespace__` prefix (a `top__sub__` prefix nests under `top__`), as a
//! developer message in history. Later steps only append what changed: tools
//! loaded, unloaded, or described differently. A tool whose description
//! history already holds comes back by name only.

use vstd::prelude::*;
use crate::assoc::sorted_keys;
use crate::assoc::sorted_pos;
use crate::assoc::unique_keys;
use crate::assoc::lemma_assoc_put_sorted;
use crate::assoc::lemma_assoc_put_entries;
use crate::assoc::lemma_set_put_elems;
use crate::assoc::lemma_sorted_unique;
use crate::assoc::lemma_lookup_unique;
use crate::assoc::lemma_lookup_found;
use crate::assoc::lemma_lookup_assoc_put_same;
use crate::assoc::lemma_lookup_assoc_put_other;
use crate::assoc::lemma_set_put_contains;
use crate::assoc::lemma_sorted_pos_bounds;
use crate::text::lex_lt;
use crate::text::lemma_lex_irreflexive;
use crate::text::lemma_lex_total;
use crate::text::lemma_lex_transitive;
use crate::assoc::ev;
use crate::assoc::find_key;
use crate::assoc::put;
use crate::assoc::lookup;
use crate::assoc::assoc_put;
use crate::assoc::sv;
use crate::assoc::set_put;
use crate::assoc::set_insert;
use crate::assoc::contains_name;
use crate::describe::short_description_chars;
use crate::describe::short_description_spec;
use crate::text::chars_of;

verus! {

/// Budget, in bytes, for the listed entries; tools past it are left to
/// `ALL_TOOLS`.
pub const MAX_LISTED_BYTES: usize = 12 * 1024;

pub const MAX_TOOL_DESCRIPTION_CHARS: usize = 100;

pub const MAX_GROUP_DESCRIPTION_CHARS: usize = 160;

/// Unlisted tools whose descriptions are remembered; past it, a tool that
/// comes back is described again.
pub const MAX_REMEMBERED: usize = 512;

/// One deferred tool as the code-mode runtime names it.
pub struct CatalogTool {
    /// Name on the global `tools` object, e.g. `astrbot__web_search`.
    pub global_name: String,
    /// The `namespace__` part of `global_name`; empty for plain tools.
    pub group: String,
    pub description: String,
    pub group_description: String,
}

/// The text of a [`CatalogTool`].
pub struct ToolM {
    pub global: Seq<char>,
    pub group: Seq<char>,
    pub description: Seq<char>,
    pub group_description: Seq<char>,
}

impl View for CatalogTool {
    type V = ToolM;

    open spec fn view(&self) -> ToolM {
        ToolM {
            global: self.global_name@,
            group: self.group@,
            description: self.description@,
            group_description: self.group_description@,
        }
    }
}

/// The tools of one prefix.
#[derive(Debug, PartialEq, Eq)]
pub struct CatalogGroup {
    pub description: Vec<char>,
    /// Name after the group prefix -> short description, sorted by name.
    pub tools: Vec<(Vec<char>, Vec<char>)>,
}

/// The text of a [`CatalogGroup`].
pub struct GroupM {
    pub description: Seq<char>,
    pub tools: Seq<(Seq<char>, Seq<char>)>,
}

impl View for CatalogGroup {
    type V = GroupM;

    open spec fn view(&self) -> GroupM {
        GroupM { description: self.description@, tools: ev(self.tools@) }
    }
}

pub open spec fn empty_group() -> GroupM {
    GroupM { description: seq![], tools: seq![] }
}

/// The groups after one more tool: the tool's short description is filed
/// under its name (what follows the group prefix) in its group, and the
/// group takes the short group description of the first of its tools that
/// has one.
pub open spec fn add_tool(all: Seq<(Seq<char>, GroupM)>, t: ToolM) -> Seq<(Seq<char>, GroupM)> {
    let name = t.global.skip(t.group.len() as int);
    let g = match lookup(all, t.group) {
        Some(g) => g,
        None => empty_group(),
    };
    let description = if g.description.len() == 0 {
        short_description_spec(t.group_description, MAX_GROUP_DESCRIPTION_CHARS as nat)
    } else {
        g.description
    };
    assoc_put(
        all,
        t.group,
        GroupM {
            description,
            tools: assoc_put(
                g.tools,
                name,
                short_description_spec(t.description, MAX_TOOL_DESCRIPTION_CHARS as nat),
            ),
        },
    )
}

/// Every tool filed into its group, groups sorted by prefix.
pub open spec fn build_all(tools: Seq<ToolM>) -> Seq<(Seq<char>, GroupM)>
    decreases tools.len(),
{
    if tools.len() == 0 {
        seq![]
    } else {
        add_tool(build_all(tools.drop_last()), tools.last())
    }
}

/// What the catalog needs of its tools: each tool's group is a prefix of its
/// global name, and no two tools share a global name (the code-mode runtime
/// keeps the first tool of a name).
pub open spec fn tools_wf(tools: Seq<CatalogTool>) -> bool {
    &&& forall|i: int|
        0 <= i < tools.len() ==> (#[trigger] tools[i])@.group.len() <= tools[i]@.global.len()
            && tools[i]@.global.take(tools[i]@.group.len() as int) == tools[i]@.group
    &&& forall|i: int, j: int|
        0 <= i < j < tools.len() ==> (#[trigger] tools[i])@.global != (#[trigger] tools[j])@.global
}

pub open spec fn tools_view(tools: Seq<CatalogTool>) -> Seq<ToolM> {
    tools.map_values(|t: CatalogTool| t@)
}

fn clone_chars(v: &Vec<char>) -> (r: Vec<char>)
    ensures
        r@ == v@,
{
    let r = v.clone();
    assert(r@ =~= v@);
    r
}

pub fn clone_pairs(v: &Vec<(Vec<char>, Vec<char>)>) -> (r: Vec<(Vec<char>, Vec<char>)>)
    ensures
        ev(r@) == ev(v@),
{
    let mut r: Vec<(Vec<char>, Vec<char>)> = Vec::new();
    let mut i: usize = 0;
    while i < v.len()
        invariant
            i <= v.len(),
            r@.len() == i,
            forall|j: int| 0 <= j < i ==> (#[trigger] r@[j]).0@ == v@[j].0@ && r@[j].1@ == v@[j].1@,
        decreases v.len() - i,
    {
        let p = (clone_chars(&v[i].0), clone_chars(&v[i].1));
        r.push(p);
        i = i + 1;
    }
    assert(ev(r@) =~= ev(v@));
    r
}

fn clone_group(g: &CatalogGroup) -> (r: CatalogGroup)
    ensures
        r@ == g@,
{
    CatalogGroup { description: clone_chars(&g.description), tools: clone_pairs(&g.tools) }
}

/// Files every tool into its group.
fn build_groups(tools: &Vec<CatalogTool>) -> (all: Vec<(Vec<char>, CatalogGroup)>)
    requires
        tools_wf(tools@),
    ensures
        ev(all@) == build_all(tools_view(tools@)),
{
    let mut all: Vec<(Vec<char>, CatalogGroup)> = Vec::new();
    let mut i: usize = 0;
    while i < tools.len()
        invariant
            i <= tools.len(),
            tools_wf(tools@),
            ev(all@) == build_all(tools_view(tools@).take(i as int)),
        decreases tools.len() - i,
    {
        let t = &tools[i];
        let group = chars_of(t.group.as_str());
        let global = chars_of(t.global_name.as_str());
        proof {
            assert(tools@[i as int] == *t);
        }
        let name = crate::describe::slice_chars(&global, group.len(), global.len());
        let found = find_key(&all, &group);
        let mut g = match found {
            Some(j) => clone_group(&all[j].1),
            None => {
                let e = CatalogGroup { description: Vec::new(), tools: Vec::new() };
                assert(e@.tools =~= seq![]);
                assert(e@.description =~= seq![]);
                e
            },
        };
        proof {
            match found {
                Some(j) => {
                    assert(ev(all@)[j as int].1 == all@[j as int].1@);
                },
                None => {},
            }
            assert(g@ == match lookup(ev(all@), group@) {
                Some(g) => g,
                None => empty_group(),
            });
        }
        if g.description.len() == 0 {
            g.description = short_description_chars(
                &chars_of(t.group_description.as_str()),
                MAX_GROUP_DESCRIPTION_CHARS,
            );
        }
        let d = short_description_chars(&chars_of(t.description.as_str()), MAX_TOOL_DESCRIPTION_CHARS);
        let ghost g_before = g@;
        let ghost all_before = ev(all@);
        put(&mut g.tools, name, d);
        let ghost g_after = g@;
        put(&mut all, group, g);
        proof {
            let tv = tools_view(tools@);
            assert(tv.take(i + 1).drop_last() =~= tv.take(i as int));
            assert(tv.take(i + 1).last() == t@);
            assert(name@ =~= t@.global.skip(t@.group.len() as int));
        }
        i = i + 1;
    }
    assert(tools_view(tools@).take(tools.len() as int) =~= tools_view(tools@));
    all
}

/// UTF-8 width of a character, in bytes.
pub open spec fn char_width(c: char) -> nat {
    if (c as u32) < 0x80 {
        1
    } else if (c as u32) < 0x800 {
        2
    } else if (c as u32) < 0x10000 {
        3
    } else {
        4
    }
}

/// Length in bytes of the UTF-8 encoding of `s` (what `str::len` returns).
pub open spec fn utf8_len(s: Seq<char>) -> nat
    decreases s.len(),
{
    if s.len() == 0 {
        0
    } else {
        utf8_len(s.drop_last()) + char_width(s.last())
    }
}

pub open spec fn sat(x: int) -> int {
    if x < usize::MAX as int {
        x
    } else {
        usize::MAX as int
    }
}

fn sat_add(a: usize, b: usize) -> (r: usize)
    ensures
        r == sat(a + b),
{
    if a > usize::MAX - b {
        usize::MAX
    } else {
        a + b
    }
}

/// The UTF-8 length of `v`, or `usize::MAX` when it is larger.
pub fn utf8_len_sat(v: &Vec<char>) -> (r: usize)
    ensures
        r == sat(utf8_len(v@) as int),
{
    let mut n: usize = 0;
    let mut i: usize = 0;
    while i < v.len()
        invariant
            i <= v.len(),
            n == sat(utf8_len(v@.take(i as int)) as int),
        decreases v.len() - i,
    {
        let c = v[i];
        let w: usize = if (c as u32) < 0x80 {
            1
        } else if (c as u32) < 0x800 {
            2
        } else if (c as u32) < 0x10000 {
            3
        } else {
            4
        };
        proof {
            assert(v@.take(i + 1).drop_last() =~= v@.take(i as int));
            assert(v@.take(i + 1).last() == c);
        }
        n = sat_add(n, w);
        i = i + 1;
    }
    assert(v@.take(v.len() as int) =~= v@);
    n
}

/// A sorted list of names.
#[derive(Debug, PartialEq, Eq)]
pub struct NameList {
    pub names: Vec<Vec<char>>,
}

impl View for NameList {
    type V = Seq<Seq<char>>;

    open spec fn view(&self) -> Seq<Seq<char>> {
        sv(self.names@)
    }
}

/// What the model saw of the catalog last.
#[derive(Debug, PartialEq, Eq)]
pub struct ToolCatalogSnapshot {
    /// Keyed by `namespace__` prefix; the empty key holds plain tools.
    pub groups: Vec<(Vec<char>, CatalogGroup)>,
    /// Tools past the listing budget.
    pub omitted: usize,
    /// Tools described earlier in history but not listed now: full name ->
    /// short description.
    pub remembered: Vec<(Vec<char>, Vec<char>)>,
    /// Tools listed before and still callable but past the budget now, by
    /// prefix, so their removal is still announced.
    pub unlisted: Vec<(Vec<char>, NameList)>,
}

/// The text of a [`ToolCatalogSnapshot`].
pub struct SnapM {
    pub groups: Seq<(Seq<char>, GroupM)>,
    pub omitted: nat,
    pub remembered: Seq<(Seq<char>, Seq<char>)>,
    pub unlisted: Seq<(Seq<char>, Seq<Seq<char>>)>,
}

impl View for ToolCatalogSnapshot {
    type V = SnapM;

    open spec fn view(&self) -> SnapM {
        SnapM {
            groups: ev(self.groups@),
            omitted: self.omitted as nat,
            remembered: ev(self.remembered@),
            unlisted: ev(self.unlisted@),
        }
    }
}

pub open spec fn opt_view(p: Option<&ToolCatalogSnapshot>) -> Option<SnapM> {
    match p {
        Some(s) => Some(s@),
        None => None,
    }
}

/// One catalog entry in listing order: group `gi`, tool `ti` of that group.
pub struct EntryM {
    pub gi: int,
    pub ti: int,
    pub prefix: Seq<char>,
    pub gdesc: Seq<char>,
    pub name: Seq<char>,
    pub desc: Seq<char>,
}

pub open spec fn group_entries(all: Seq<(Seq<char>, GroupM)>, gi: int) -> Seq<EntryM> {
    Seq::new(
        all[gi].1.tools.len(),
        |ti: int|
            EntryM {
                gi,
                ti,
                prefix: all[gi].0,
                gdesc: all[gi].1.description,
                name: all[gi].1.tools[ti].0,
                desc: all[gi].1.tools[ti].1,
            },
    )
}

/// The entries of the first `n` groups, in order.
pub open spec fn flat_upto(all: Seq<(Seq<char>, GroupM)>, n: int) -> Seq<EntryM>
    decreases n,
{
    if n <= 0 {
        seq![]
    } else {
        flat_upto(all, n - 1) + group_entries(all, n - 1)
    }
}

pub open spec fn flat(all: Seq<(Seq<char>, GroupM)>) -> Seq<EntryM> {
    flat_upto(all, all.len() as int)
}

/// Whether the previous catalog listed `name` under `prefix`.
pub open spec fn was_listed(prev: Option<SnapM>, prefix: Seq<char>, name: Seq<char>) -> bool {
    match prev {
        Some(p) => is_listed_in(p.groups, prefix, name),
        None => false,
    }
}

pub open spec fn is_listed_in(groups: Seq<(Seq<char>, GroupM)>, prefix: Seq<char>, name: Seq<char>) -> bool {
    match lookup(groups, prefix) {
        Some(g) => lookup(g.tools, name) is Some,
        None => false,
    }
}

/// Selection state: bytes left, groups whose heading was paid for, and the
/// entries chosen for the listing.
pub struct SelM {
    pub remaining: int,
    pub paid: Seq<bool>,
    pub chosen: Seq<bool>,
}

/// Bytes an entry takes: its line, plus its group's heading the first time.
pub open spec fn entry_cost(e: EntryM, heading_paid: bool) -> int {
    let heading: int = if heading_paid {
        0
    } else {
        (utf8_len(e.prefix) + utf8_len(e.gdesc) + 6) as int
    };
    utf8_len(e.name) + utf8_len(e.desc) + 7 + heading
}

pub open spec fn select_step(st: SelM, e: EntryM, listed: bool, sticky: bool, k: int) -> SelM {
    if listed != sticky {
        st
    } else {
        let cost = entry_cost(e, st.paid[e.gi]);
        if cost <= st.remaining {
            SelM {
                remaining: st.remaining - cost,
                paid: st.paid.update(e.gi, true),
                chosen: st.chosen.update(k, true),
            }
        } else {
            st
        }
    }
}

/// One pass over the first `n` entries, taking those whose `listed` flag
/// equals `sticky` while they fit.
pub open spec fn select_pass(
    es: Seq<EntryM>,
    listed: Seq<bool>,
    sticky: bool,
    st: SelM,
    n: int,
) -> SelM
    decreases n,
{
    if n <= 0 {
        st
    } else {
        select_step(select_pass(es, listed, sticky, st, n - 1), es[n - 1], listed[n - 1], sticky, n - 1)
    }
}

pub open spec fn listed_flags(es: Seq<EntryM>, prev: Option<SnapM>) -> Seq<bool> {
    Seq::new(es.len(), |k: int| was_listed(prev, es[k].prefix, es[k].name))
}

/// Greedy choice within [`MAX_LISTED_BYTES`]: first the tools listed last
/// time, then the others, each pass in prefix and name order.
pub open spec fn selection(all: Seq<(Seq<char>, GroupM)>, prev: Option<SnapM>) -> SelM {
    let es = flat(all);
    let listed = listed_flags(es, prev);
    let st0 = SelM {
        remaining: MAX_LISTED_BYTES as int,
        paid: Seq::new(all.len(), |i: int| false),
        chosen: Seq::new(es.len(), |i: int| false),
    };
    select_pass(es, listed, false, select_pass(es, listed, true, st0, es.len() as int), es.len() as int)
}

pub proof fn lemma_flat_upto(all: Seq<(Seq<char>, GroupM)>, n: int)
    requires
        0 <= n <= all.len(),
    ensures
        forall|k: int|
            0 <= k < flat_upto(all, n).len() ==> {
                let e = #[trigger] flat_upto(all, n)[k];
                &&& 0 <= e.gi < n
                &&& 0 <= e.ti < all[e.gi].1.tools.len()
                &&& e == group_entries(all, e.gi)[e.ti]
            },
    decreases n,
{
    if n > 0 {
        lemma_flat_upto(all, n - 1);
        let a = flat_upto(all, n - 1);
        assert forall|k: int| 0 <= k < flat_upto(all, n).len() implies {
            let e = #[trigger] flat_upto(all, n)[k];
            &&& 0 <= e.gi < n
            &&& 0 <= e.ti < all[e.gi].1.tools.len()
            &&& e == group_entries(all, e.gi)[e.ti]
        } by {
            if k < a.len() {
                assert(flat_upto(all, n)[k] == a[k]);
            } else {
                assert(flat_upto(all, n)[k] == group_entries(all, n - 1)[k - a.len()]);
            }
        }
    }
}

/// Group and tool index of every entry, in listing order.
fn flat_indices(all: &Vec<(Vec<char>, CatalogGroup)>) -> (r: Vec<(usize, usize)>)
    ensures
        r@.len() == flat(ev(all@)).len(),
        forall|k: int|
            0 <= k < r@.len() ==> (#[trigger] r@[k]).0 == flat(ev(all@))[k].gi && r@[k].1
                == flat(ev(all@))[k].ti,
{
    let ghost a = ev(all@);
    let mut r: Vec<(usize, usize)> = Vec::new();
    let mut gi: usize = 0;
    while gi < all.len()
        invariant
            a == ev(all@),
            gi <= all.len(),
            r@.len() == flat_upto(a, gi as int).len(),
            forall|k: int|
                0 <= k < r@.len() ==> (#[trigger] r@[k]).0 == flat_upto(a, gi as int)[k].gi && r@[k].1
                    == flat_upto(a, gi as int)[k].ti,
        decreases all.len() - gi,
    {
        let n = all[gi].1.tools.len();
        let ghost base = flat_upto(a, gi as int);
        let ghost ge = group_entries(a, gi as int);
        assert(a[gi as int].1.tools.len() == n);
        let mut ti: usize = 0;
        while ti < n
            invariant
                a == ev(all@),
                gi < all.len(),
                ti <= n,
                n == a[gi as int].1.tools.len(),
                ge == group_entries(a, gi as int),
                r@.len() == base.len() + ti,
                forall|k: int|
                    0 <= k < r@.len() ==> (#[trigger] r@[k]).0 == (base + ge)[k].gi && r@[k].1 == (
                    base + ge)[k].ti,
            decreases n - ti,
        {
            r.push((gi, ti));
            ti = ti + 1;
        }
        assert(flat_upto(a, gi + 1) == base + ge);
        gi = gi + 1;
    }
    r
}

/// Whether the previous catalog listed `name` under `prefix`.
fn was_listed_exec(
    previous: Option<&ToolCatalogSnapshot>,
    prefix: &Vec<char>,
    name: &Vec<char>,
) -> (r: bool)
    ensures
        r == was_listed(opt_view(previous), prefix@, name@),
{
    match previous {
        Some(p) => match find_key(&p.groups, prefix) {
            Some(j) => {
                assert(ev(p.groups@)[j as int].1 == p.groups@[j as int].1@);
                find_key(&p.groups[j].1.tools, name).is_some()
            },
            None => false,
        },
        None => false,
    }
}

pub proof fn lemma_sat_add(x: int, y: int)
    requires
        x >= 0,
        y >= 0,
    ensures
        sat(sat(x) + sat(y)) == sat(x + y),
{
}

/// The chosen entries, by the two greedy passes of [`selection`].
fn select_entries(
    all: &Vec<(Vec<char>, CatalogGroup)>,
    es: &Vec<(usize, usize)>,
    previous: Option<&ToolCatalogSnapshot>,
) -> (chosen: Vec<bool>)
    requires
        es@.len() == flat(ev(all@)).len(),
        forall|k: int|
            0 <= k < es@.len() ==> (#[trigger] es@[k]).0 == flat(ev(all@))[k].gi && es@[k].1
                == flat(ev(all@))[k].ti,
    ensures
        chosen@ == selection(ev(all@), opt_view(previous)).chosen,
        chosen@.len() == es@.len(),
{
    let ghost a = ev(all@);
    let ghost fl = flat(a);
    let ghost prev = opt_view(previous);
    proof {
        lemma_flat_upto(a, a.len() as int);
    }
    // Which entries the previous catalog listed.
    let mut listed: Vec<bool> = Vec::new();
    let mut k: usize = 0;
    while k < es.len()
        invariant
            a == ev(all@),
            fl == flat(a),
            prev == opt_view(previous),
            es@.len() == fl.len(),
            forall|j: int| 0 <= j < es@.len() ==> (#[trigger] es@[j]).0 == fl[j].gi && es@[j].1 == fl[j].ti,
            forall|j: int|
                0 <= j < fl.len() ==> {
                    let e = #[trigger] fl[j];
                    &&& 0 <= e.gi < a.len()
                    &&& 0 <= e.ti < a[e.gi].1.tools.len()
                    &&& e == group_entries(a, e.gi)[e.ti]
                },
            k <= es.len(),
            listed@ == listed_flags(fl, prev).take(k as int),
        decreases es.len() - k,
    {
        let (gi, ti) = es[k];
        assert(fl[k as int] == group_entries(a, gi as int)[ti as int]);
        assert(a[gi as int].1 == all@[gi as int].1@);
        let b = was_listed_exec(previous, &all[gi].0, &all[gi].1.tools[ti].0);
        listed.push(b);
        k = k + 1;
        assert(listed@ =~= listed_flags(fl, prev).take(k as int));
    }
    assert(listed@ =~= listed_flags(fl, prev));
    let mut remaining: usize = MAX_LISTED_BYTES;
    let mut paid: Vec<bool> = Vec::new();
    let mut gi: usize = 0;
    while gi < all.len()
        invariant
            gi <= all.len(),
            paid@ == Seq::new(gi as nat, |i: int| false),
        decreases all.len() - gi,
    {
        paid.push(false);
        gi = gi + 1;
        assert(paid@ =~= Seq::new(gi as nat, |i: int| false));
    }
    let mut chosen: Vec<bool> = Vec::new();
    let mut k: usize = 0;
    while k < es.len()
        invariant
            k <= es.len(),
            chosen@ == Seq::new(k as nat, |i: int| false),
        decreases es.len() - k,
    {
        chosen.push(false);
        k = k + 1;
        assert(chosen@ =~= Seq::new(k as nat, |i: int| false));
    }
    let ghost st0 = SelM { remaining: remaining as int, paid: paid@, chosen: chosen@ };
    let mut pass: usize = 0;
    while pass < 2
        invariant
            a == ev(all@),
            fl == flat(a),
            prev == opt_view(previous),
            es@.len() == fl.len(),
            forall|j: int| 0 <= j < es@.len() ==> (#[trigger] es@[j]).0 == fl[j].gi && es@[j].1 == fl[j].ti,
            forall|j: int|
                0 <= j < fl.len() ==> {
                    let e = #[trigger] fl[j];
                    &&& 0 <= e.gi < a.len()
                    &&& 0 <= e.ti < a[e.gi].1.tools.len()
                    &&& e == group_entries(a, e.gi)[e.ti]
                },
            listed@ == listed_flags(fl, prev),
            pass <= 2,
            st0 == (SelM {
                remaining: MAX_LISTED_BYTES as int,
                paid: Seq::new(a.len(), |i: int| false),
                chosen: Seq::new(fl.len(), |i: int| false),
            }),
            ({
                let st = if pass == 0 {
                    st0
                } else if pass == 1 {
                    select_pass(fl, listed@, true, st0, fl.len() as int)
                } else {
                    select_pass(fl, listed@, false, select_pass(fl, listed@, true, st0, fl.len() as int), fl.len() as int)
                };
                &&& remaining as int == st.remaining
                &&& paid@ == st.paid
                &&& chosen@ == st.chosen
            }),
            remaining <= MAX_LISTED_BYTES,
            paid@.len() == a.len(),
            chosen@.len() == fl.len(),
        decreases 2 - pass,
    {
        let sticky = pass == 0;
        let ghost start = SelM { remaining: remaining as int, paid: paid@, chosen: chosen@ };
        let mut k: usize = 0;
        while k < es.len()
            invariant
                a == ev(all@),
                fl == flat(a),
                es@.len() == fl.len(),
                forall|j: int| 0 <= j < es@.len() ==> (#[trigger] es@[j]).0 == fl[j].gi && es@[j].1 == fl[j].ti,
                forall|j: int|
                    0 <= j < fl.len() ==> {
                        let e = #[trigger] fl[j];
                        &&& 0 <= e.gi < a.len()
                        &&& 0 <= e.ti < a[e.gi].1.tools.len()
                        &&& e == group_entries(a, e.gi)[e.ti]
                    },
                listed@.len() == fl.len(),
                k <= es.len(),
                paid@.len() == a.len(),
                chosen@.len() == fl.len(),
                remaining <= MAX_LISTED_BYTES,
                ({
                    let st = select_pass(fl, listed@, sticky, start, k as int);
                    &&& remaining as int == st.remaining
                    &&& paid@ == st.paid
                    &&& chosen@ == st.chosen
                }),
            decreases es.len() - k,
        {
            let (gi, ti) = es[k];
            let ghost e = fl[k as int];
            assert(e == group_entries(a, gi as int)[ti as int]);
            assert(a[gi as int].1 == all@[gi as int].1@);
            if listed[k] == sticky {
                let group = &all[gi];
                let tool = &group.1.tools[ti];
                assert(e.name == tool.0@);
                assert(e.desc == tool.1@);
                assert(e.prefix == group.0@);
                assert(e.gdesc == group.1.description@);
                let line = sat_add(sat_add(utf8_len_sat(&tool.0), utf8_len_sat(&tool.1)), 7);
                let heading: usize = if paid[gi] {
                    0
                } else {
                    sat_add(sat_add(utf8_len_sat(&group.0), utf8_len_sat(&group.1.description)), 6)
                };
                let cost = sat_add(line, heading);
                proof {
                    lemma_sat_add(utf8_len(e.name) as int, utf8_len(e.desc) as int);
                    lemma_sat_add((utf8_len(e.name) + utf8_len(e.desc)) as int, 7);
                    lemma_sat_add(utf8_len(e.prefix) as int, utf8_len(e.gdesc) as int);
                    lemma_sat_add((utf8_len(e.prefix) + utf8_len(e.gdesc)) as int, 6);
                    let h: int = if paid@[gi as int] {
                        0
                    } else {
                        (utf8_len(e.prefix) + utf8_len(e.gdesc) + 6) as int
                    };
                    lemma_sat_add((utf8_len(e.name) + utf8_len(e.desc) + 7) as int, h);
                    assert(cost as int == sat(entry_cost(e, paid@[gi as int])));
                }
                if cost <= remaining {
                    remaining = remaining - cost;
                    paid.set(gi, true);
                    chosen.set(k, true);
                }
            }
            k = k + 1;
        }
        pass = pass + 1;
    }
    chosen
}

/// The elements of `s` whose flag is set, in order.
pub open spec fn keep_flagged<T>(s: Seq<T>, flags: Seq<bool>) -> Seq<T>
    decreases s.len(),
{
    if s.len() == 0 {
        seq![]
    } else {
        let rest = keep_flagged(s.drop_last(), flags);
        if flags[s.len() - 1] {
            rest.push(s.last())
        } else {
            rest
        }
    }
}

/// The first `n` groups cut down to their chosen tools; groups left empty
/// are dropped.
pub open spec fn listed_groups_upto(
    all: Seq<(Seq<char>, GroupM)>,
    chosen: Seq<bool>,
    n: int,
) -> Seq<(Seq<char>, GroupM)>
    decreases n,
{
    if n <= 0 {
        seq![]
    } else {
        let before = listed_groups_upto(all, chosen, n - 1);
        let base = flat_upto(all, n - 1).len() as int;
        let kept = keep_flagged(
            all[n - 1].1.tools,
            chosen.subrange(base, base + all[n - 1].1.tools.len()),
        );
        if kept.len() > 0 {
            before.push((all[n - 1].0, GroupM { description: all[n - 1].1.description, tools: kept }))
        } else {
            before
        }
    }
}

pub open spec fn listed_groups(all: Seq<(Seq<char>, GroupM)>, chosen: Seq<bool>) -> Seq<(Seq<char>, GroupM)> {
    listed_groups_upto(all, chosen, all.len() as int)
}

pub open spec fn count_true(s: Seq<bool>) -> nat
    decreases s.len(),
{
    if s.len() == 0 {
        0
    } else {
        count_true(s.drop_last()) + if s.last() {
            1nat
        } else {
            0nat
        }
    }
}

/// (prefix, name, description) of every listed tool, in listing order.
pub open spec fn triples(groups: Seq<(Seq<char>, GroupM)>) -> Seq<(Seq<char>, Seq<char>, Seq<char>)>
    decreases groups.len(),
{
    if groups.len() == 0 {
        seq![]
    } else {
        triples(groups.drop_last()) + groups.last().1.tools.map_values(
            |t: (Seq<char>, Seq<char>)| (groups.last().0, t.0, t.1),
        )
    }
}

/// (prefix, name) of every name of an unlisted map, in order.
pub open spec fn unlisted_pairs(u: Seq<(Seq<char>, Seq<Seq<char>>)>) -> Seq<(Seq<char>, Seq<char>)>
    decreases u.len(),
{
    if u.len() == 0 {
        seq![]
    } else {
        unlisted_pairs(u.drop_last()) + u.last().1.map_values(|n: Seq<char>| (u.last().0, n))
    }
}

pub open spec fn lookup_names(u: Seq<(Seq<char>, Seq<Seq<char>>)>, p: Seq<char>) -> Seq<Seq<char>> {
    match lookup(u, p) {
        Some(names) => names,
        None => seq![],
    }
}

/// Tools listed before (or kept unlisted before) that are still callable
/// but not listed now, by prefix.
pub open spec fn unlisted_fold(
    cands: Seq<(Seq<char>, Seq<char>)>,
    present: Seq<Seq<char>>,
    groups: Seq<(Seq<char>, GroupM)>,
) -> Seq<(Seq<char>, Seq<Seq<char>>)>
    decreases cands.len(),
{
    if cands.len() == 0 {
        seq![]
    } else {
        let u = unlisted_fold(cands.drop_last(), present, groups);
        let (p, n) = cands.last();
        if present.contains(p + n) && !is_listed_in(groups, p, n) {
            assoc_put(u, p, set_put(lookup_names(u, p), n))
        } else {
            u
        }
    }
}

/// The elements of `s` whose key is not in `names`.
pub open spec fn drop_named(s: Seq<(Seq<char>, Seq<char>)>, names: Seq<Seq<char>>) -> Seq<(Seq<char>, Seq<char>)>
    decreases s.len(),
{
    if s.len() == 0 {
        seq![]
    } else {
        let rest = drop_named(s.drop_last(), names);
        if names.contains(s.last().0) {
            rest
        } else {
            rest.push(s.last())
        }
    }
}

/// The pairs of `s` collected into a sorted map, later pairs winning.
pub open spec fn collect_map(s: Seq<(Seq<char>, Seq<char>)>) -> Seq<(Seq<char>, Seq<char>)>
    decreases s.len(),
{
    if s.len() == 0 {
        seq![]
    } else {
        assoc_put(collect_map(s.drop_last()), s.last().0, s.last().1)
    }
}

pub open spec fn full_names(groups: Seq<(Seq<char>, GroupM)>) -> Seq<Seq<char>> {
    triples(groups).map_values(|t: (Seq<char>, Seq<char>, Seq<char>)| t.0 + t.1)
}

pub open spec fn full_pairs(groups: Seq<(Seq<char>, GroupM)>) -> Seq<(Seq<char>, Seq<char>)> {
    triples(groups).map_values(|t: (Seq<char>, Seq<char>, Seq<char>)| (t.0 + t.1, t.2))
}

/// Descriptions history holds but the new listing does not: what was
/// remembered before and what was listed before, less what is listed now,
/// at most [`MAX_REMEMBERED`] of them.
pub open spec fn remembered_spec(prev: SnapM, groups: Seq<(Seq<char>, GroupM)>) -> Seq<(Seq<char>, Seq<char>)> {
    let cands = drop_named(prev.remembered + full_pairs(prev.groups), full_names(groups));
    collect_map(cands.take(if cands.len() <= MAX_REMEMBERED { cands.len() as int } else { MAX_REMEMBERED as int }))
}

/// The state of a [`ToolCatalogState`].
pub struct StateM {
    pub catalog: SnapM,
    pub present: Seq<Seq<char>>,
    pub rendered_whole: bool,
    pub had_previous: bool,
}

/// The catalog for `tools`, given the catalog the model saw last.
pub open spec fn new_spec(tools: Seq<ToolM>, prev: Option<SnapM>) -> StateM {
    let all = build_all(tools);
    let sel = selection(all, prev);
    let groups = listed_groups(all, sel.chosen);
    let present = tools.map_values(|t: ToolM| t.global);
    StateM {
        catalog: SnapM {
            groups,
            omitted: (flat(all).len() - count_true(sel.chosen)) as nat,
            remembered: match prev {
                Some(p) => remembered_spec(p, groups),
                None => seq![],
            },
            unlisted: match prev {
                Some(p) => unlisted_fold(
                    triples(p.groups).map_values(
                        |t: (Seq<char>, Seq<char>, Seq<char>)| (t.0, t.1),
                    ) + unlisted_pairs(p.unlisted),
                    present,
                    groups,
                ),
                None => seq![],
            },
        },
        present,
        rendered_whole: false,
        had_previous: prev is Some,
    }
}

pub proof fn lemma_flat_upto_len(all: Seq<(Seq<char>, GroupM)>, m: int, n: int)
    requires
        0 <= m <= n,
    ensures
        flat_upto(all, m).len() <= flat_upto(all, n).len(),
    decreases n,
{
    if m < n {
        lemma_flat_upto_len(all, m, n - 1);
    }
}

/// The groups cut down to their chosen tools.
fn listed_groups_exec(all: &Vec<(Vec<char>, CatalogGroup)>, chosen: &Vec<bool>) -> (r: Vec<(Vec<char>, CatalogGroup)>)
    requires
        chosen@.len() == flat(ev(all@)).len(),
    ensures
        ev(r@) == listed_groups(ev(all@), chosen@),
{
    let ghost a = ev(all@);
    let clen = chosen.len();
    let mut r: Vec<(Vec<char>, CatalogGroup)> = Vec::new();
    let mut k: usize = 0;
    let mut gi: usize = 0;
    while gi < all.len()
        invariant
            a == ev(all@),
            chosen@.len() == flat(a).len(),
            clen == chosen@.len(),
            gi <= all.len(),
            k == flat_upto(a, gi as int).len(),
            ev(r@) == listed_groups_upto(a, chosen@, gi as int),
        decreases all.len() - gi,
    {
        let group = &all[gi];
        let n = group.1.tools.len();
        let ghost base = k as int;
        let ghost tools = a[gi as int].1.tools;
        proof {
            assert(a[gi as int].1 == all@[gi as int].1@);
            lemma_flat_upto_len(a, gi + 1, a.len() as int);
            assert(flat_upto(a, gi + 1).len() == base + n);
        }
        let ghost flags = chosen@.subrange(base, base + n);
        let mut kept: Vec<(Vec<char>, Vec<char>)> = Vec::new();
        let mut ti: usize = 0;
        while ti < n
            invariant
                a == ev(all@),
                gi < all.len(),
                group == &all@[gi as int],
                tools == a[gi as int].1.tools,
                tools == ev(group.1.tools@),
                n == tools.len(),
                chosen@.len() == flat(a).len(),
                0 <= base,
                base + n <= chosen@.len(),
                clen == chosen@.len(),
                flags == chosen@.subrange(base, base + n),
                ti <= n,
                k == base + ti,
                ev(kept@) == keep_flagged(tools.take(ti as int), flags),
            decreases n - ti,
        {
            proof {
                assert(tools.take(ti + 1).drop_last() =~= tools.take(ti as int));
                assert(tools.take(ti + 1).last() == tools[ti as int]);
                assert(flags[ti as int] == chosen@[k as int]);
            }
            if chosen[k] {
                let t = &group.1.tools[ti];
                let ghost prev = kept@;
                let p = (clone_chars(&t.0), clone_chars(&t.1));
                kept.push(p);
                proof {
                    assert(ev(kept@) =~= ev(prev).push(tools[ti as int]));
                }
            }
            ti = ti + 1;
            k = k + 1;
        }
        proof {
            assert(tools.take(n as int) =~= tools);
        }
        if kept.len() > 0 {
            let ghost prev = r@;
            let g = CatalogGroup { description: clone_chars(&group.1.description), tools: kept };
            r.push((clone_chars(&group.0), g));
            proof {
                assert(ev(r@) =~= ev(prev).push(
                    (a[gi as int].0, GroupM { description: a[gi as int].1.description, tools: ev(kept@) }),
                ));
            }
        }
        gi = gi + 1;
    }
    r
}

fn count_chosen(chosen: &Vec<bool>) -> (n: usize)
    ensures
        n == count_true(chosen@),
        n <= chosen@.len(),
{
    let mut n: usize = 0;
    let mut i: usize = 0;
    while i < chosen.len()
        invariant
            i <= chosen.len(),
            n == count_true(chosen@.take(i as int)),
            n <= i,
        decreases chosen.len() - i,
    {
        proof {
            assert(chosen@.take(i + 1).drop_last() =~= chosen@.take(i as int));
        }
        if chosen[i] {
            n = n + 1;
        }
        i = i + 1;
    }
    assert(chosen@.take(chosen.len() as int) =~= chosen@);
    n
}

pub open spec fn tv(s: Seq<(Vec<char>, Vec<char>, Vec<char>)>) -> Seq<(Seq<char>, Seq<char>, Seq<char>)> {
    s.map_values(|t: (Vec<char>, Vec<char>, Vec<char>)| (t.0@, t.1@, t.2@))
}

/// (prefix, name, description) of every tool of `groups`.
fn triples_exec(groups: &Vec<(Vec<char>, CatalogGroup)>) -> (r: Vec<(Vec<char>, Vec<char>, Vec<char>)>)
    ensures
        tv(r@) == triples(ev(groups@)),
{
    let ghost a = ev(groups@);
    let mut r: Vec<(Vec<char>, Vec<char>, Vec<char>)> = Vec::new();
    let mut gi: usize = 0;
    while gi < groups.len()
        invariant
            a == ev(groups@),
            gi <= groups.len(),
            tv(r@) == triples(a.take(gi as int)),
        decreases groups.len() - gi,
    {
        let group = &groups[gi];
        let ghost base = tv(r@);
        let ghost tools = a[gi as int].1.tools;
        let ghost p = a[gi as int].0;
        proof {
            assert(a[gi as int].1 == groups@[gi as int].1@);
        }
        let mut ti: usize = 0;
        while ti < group.1.tools.len()
            invariant
                gi < groups.len(),
                group == &groups@[gi as int],
                tools == ev(group.1.tools@),
                p == group.0@,
                ti <= tools.len(),
                tv(r@) == base + tools.take(ti as int).map_values(
                    |t: (Seq<char>, Seq<char>)| (p, t.0, t.1),
                ),
            decreases tools.len() - ti,
        {
            let t = &group.1.tools[ti];
            let ghost prev = r@;
            r.push((clone_chars(&group.0), clone_chars(&t.0), clone_chars(&t.1)));
            proof {
                let f = |t: (Seq<char>, Seq<char>)| (p, t.0, t.1);
                assert(tools[ti as int] == (t.0@, t.1@));
                assert(tv(r@) =~= tv(prev).push((p, t.0@, t.1@)));
                assert(tools.take(ti + 1).map_values(f) =~= tools.take(ti as int).map_values(f).push(f(tools[ti as int])));
            }
            ti = ti + 1;
        }
        proof {
            assert(tools.take(tools.len() as int) =~= tools);
            assert(a.take(gi + 1).drop_last() =~= a.take(gi as int));
            assert(a.take(gi + 1).last() == a[gi as int]);
        }
        gi = gi + 1;
    }
    assert(a.take(groups.len() as int) =~= a);
    r
}

/// (prefix, name) of every name of an unlisted map.
fn unlisted_pairs_exec(u: &Vec<(Vec<char>, NameList)>) -> (r: Vec<(Vec<char>, Vec<char>)>)
    ensures
        ev(r@) == unlisted_pairs(ev(u@)),
{
    let ghost a = ev(u@);
    let mut r: Vec<(Vec<char>, Vec<char>)> = Vec::new();
    let mut gi: usize = 0;
    while gi < u.len()
        invariant
            a == ev(u@),
            gi <= u.len(),
            ev(r@) == unlisted_pairs(a.take(gi as int)),
        decreases u.len() - gi,
    {
        let entry = &u[gi];
        let ghost base = ev(r@);
        let ghost names = a[gi as int].1;
        let ghost p = a[gi as int].0;
        let mut ti: usize = 0;
        while ti < entry.1.names.len()
            invariant
                gi < u.len(),
                entry == &u@[gi as int],
                names == sv(entry.1.names@),
                p == entry.0@,
                ti <= names.len(),
                ev(r@) == base + names.take(ti as int).map_values(|n: Seq<char>| (p, n)),
            decreases names.len() - ti,
        {
            let ghost prev = r@;
            r.push((clone_chars(&entry.0), clone_chars(&entry.1.names[ti])));
            proof {
                let f = |n: Seq<char>| (p, n);
                assert(names[ti as int] == entry.1.names@[ti as int]@);
                assert(ev(r@) =~= ev(prev).push((p, names[ti as int])));
                assert(names.take(ti + 1).map_values(f) =~= names.take(ti as int).map_values(f).push(f(names[ti as int])));
            }
            ti = ti + 1;
        }
        proof {
            assert(names.take(names.len() as int) =~= names);
            assert(a.take(gi + 1).drop_last() =~= a.take(gi as int));
            assert(a.take(gi + 1).last() == a[gi as int]);
        }
        gi = gi + 1;
    }
    assert(a.take(u.len() as int) =~= a);
    r
}

fn concat_chars(a: &Vec<char>, b: &Vec<char>) -> (r: Vec<char>)
    ensures
        r@ == a@ + b@,
{
    let mut r = clone_chars(a);
    let mut i: usize = 0;
    while i < b.len()
        invariant
            i <= b.len(),
            r@ == a@ + b@.take(i as int),
        decreases b.len() - i,
    {
        r.push(b[i]);
        i = i + 1;
        assert(r@ =~= a@ + b@.take(i as int));
    }
    assert(b@.take(b.len() as int) =~= b@);
    r
}

fn clone_names(v: &Vec<Vec<char>>) -> (r: Vec<Vec<char>>)
    ensures
        sv(r@) == sv(v@),
{
    let mut r: Vec<Vec<char>> = Vec::new();
    let mut i: usize = 0;
    while i < v.len()
        invariant
            i <= v.len(),
            r@.len() == i,
            forall|j: int| 0 <= j < i ==> (#[trigger] r@[j])@ == v@[j]@,
        decreases v.len() - i,
    {
        r.push(clone_chars(&v[i]));
        i = i + 1;
    }
    assert(sv(r@) =~= sv(v@));
    r
}

/// Whether `groups` lists `name` under `prefix`.
fn is_listed_exec(groups: &Vec<(Vec<char>, CatalogGroup)>, prefix: &Vec<char>, name: &Vec<char>) -> (r: bool)
    ensures
        r == is_listed_in(ev(groups@), prefix@, name@),
{
    match find_key(groups, prefix) {
        Some(j) => {
            assert(ev(groups@)[j as int].1 == groups@[j as int].1@);
            find_key(&groups[j].1.tools, name).is_some()
        },
        None => false,
    }
}

/// Tools still callable but not listed, by prefix.
fn unlisted_exec(
    cands: &Vec<(Vec<char>, Vec<char>)>,
    present: &Vec<Vec<char>>,
    groups: &Vec<(Vec<char>, CatalogGroup)>,
) -> (u: Vec<(Vec<char>, NameList)>)
    ensures
        ev(u@) == unlisted_fold(ev(cands@), sv(present@), ev(groups@)),
{
    let ghost c = ev(cands@);
    let mut u: Vec<(Vec<char>, NameList)> = Vec::new();
    let mut i: usize = 0;
    while i < cands.len()
        invariant
            c == ev(cands@),
            i <= cands.len(),
            ev(u@) == unlisted_fold(c.take(i as int), sv(present@), ev(groups@)),
        decreases cands.len() - i,
    {
        let (p, n) = (&cands[i].0, &cands[i].1);
        proof {
            assert(c.take(i + 1).drop_last() =~= c.take(i as int));
            assert(c.take(i + 1).last() == (p@, n@));
        }
        let full = concat_chars(p, n);
        if contains_name(present, &full) && !is_listed_exec(groups, p, n) {
            let found = find_key(&u, p);
            let mut names = match found {
                Some(j) => clone_names(&u[j].1.names),
                None => Vec::new(),
            };
            proof {
                match found {
                    Some(j) => {
                        assert(ev(u@)[j as int].1 == u@[j as int].1@);
                    },
                    None => {
                        assert(sv(names@) =~= seq![]);
                    },
                }
                assert(sv(names@) == lookup_names(ev(u@), p@));
            }
            set_insert(&mut names, clone_chars(n));
            put(&mut u, clone_chars(p), NameList { names });
        }
        i = i + 1;
    }
    assert(c.take(cands.len() as int) =~= c);
    u
}

/// Descriptions history holds but the new listing does not.
fn remembered_exec(prev: &ToolCatalogSnapshot, groups: &Vec<(Vec<char>, CatalogGroup)>) -> (r: Vec<(Vec<char>, Vec<char>)>)
    ensures
        ev(r@) == remembered_spec(prev@, ev(groups@)),
{
    // Full names listed now.
    let now = triples_exec(groups);
    let mut listed_now: Vec<Vec<char>> = Vec::new();
    let mut i: usize = 0;
    while i < now.len()
        invariant
            i <= now.len(),
            sv(listed_now@) == tv(now@).take(i as int).map_values(
                |t: (Seq<char>, Seq<char>, Seq<char>)| t.0 + t.1,
            ),
        decreases now.len() - i,
    {
        let ghost before = listed_now@;
        listed_now.push(concat_chars(&now[i].0, &now[i].1));
        proof {
            let f = |t: (Seq<char>, Seq<char>, Seq<char>)| t.0 + t.1;
            assert(sv(listed_now@) =~= sv(before).push(now@[i as int].0@ + now@[i as int].1@));
            assert(tv(now@).take(i + 1).map_values(f) =~= tv(now@).take(i as int).map_values(f).push(
                f(tv(now@)[i as int]),
            ));
        }
        i = i + 1;
    }
    assert(tv(now@).take(now.len() as int) =~= tv(now@));
    // Candidates: remembered before, then listed before.
    let mut cands: Vec<(Vec<char>, Vec<char>)> = clone_pairs(&prev.remembered);
    let before = triples_exec(&prev.groups);
    let ghost base = ev(cands@);
    let mut i: usize = 0;
    while i < before.len()
        invariant
            i <= before.len(),
            ev(cands@) == base + tv(before@).take(i as int).map_values(
                |t: (Seq<char>, Seq<char>, Seq<char>)| (t.0 + t.1, t.2),
            ),
        decreases before.len() - i,
    {
        let ghost old_c = cands@;
        cands.push((concat_chars(&before[i].0, &before[i].1), clone_chars(&before[i].2)));
        proof {
            let f = |t: (Seq<char>, Seq<char>, Seq<char>)| (t.0 + t.1, t.2);
            assert(ev(cands@) =~= ev(old_c).push(f(tv(before@)[i as int])));
            assert(tv(before@).take(i + 1).map_values(f) =~= tv(before@).take(i as int).map_values(f).push(
                f(tv(before@)[i as int]),
            ));
        }
        i = i + 1;
    }
    assert(tv(before@).take(before.len() as int) =~= tv(before@));
    let ghost c = ev(cands@);
    let ghost names = sv(listed_now@);
    // Filter, keep at most MAX_REMEMBERED, collect.
    let mut r: Vec<(Vec<char>, Vec<char>)> = Vec::new();
    let mut taken: usize = 0;
    let mut i: usize = 0;
    while i < cands.len()
        invariant
            c == ev(cands@),
            names == sv(listed_now@),
            i <= cands.len(),
            taken as int == if drop_named(c.take(i as int), names).len() <= MAX_REMEMBERED {
                drop_named(c.take(i as int), names).len() as int
            } else {
                MAX_REMEMBERED as int
            },
            ev(r@) == collect_map(drop_named(c.take(i as int), names).take(taken as int)),
        decreases cands.len() - i,
    {
        let ghost d = drop_named(c.take(i as int), names);
        proof {
            assert(c.take(i + 1).drop_last() =~= c.take(i as int));
            assert(c.take(i + 1).last() == c[i as int]);
        }
        if !contains_name(&listed_now, &cands[i].0) {
            let ghost d2 = d.push(c[i as int]);
            assert(drop_named(c.take(i + 1), names) == d2);
            if taken < MAX_REMEMBERED {
                proof {
                    assert(d2.take(taken + 1).drop_last() =~= d.take(taken as int));
                    assert(d2.take(taken + 1).last() == c[i as int]);
                }
                put(&mut r, clone_chars(&cands[i].0), clone_chars(&cands[i].1));
                taken = taken + 1;
            } else {
                proof {
                    assert(d2.take(taken as int) =~= d.take(taken as int));
                }
            }
        }
        i = i + 1;
    }
    proof {
        assert(c.take(cands.len() as int) =~= c);
        assert(c == prev@.remembered + full_pairs(prev@.groups));
        assert(names == full_names(ev(groups@)));
    }
    r
}

/// What a catalog keeps of itself: within a group each name is listed once,
/// and each name kept unlisted is still callable.
pub open spec fn catalog_wf(s: SnapM, present: Seq<Seq<char>>) -> bool {
    &&& forall|g: int| 0 <= g < s.groups.len() ==> unique_keys(#[trigger] s.groups[g].1.tools)
    &&& forall|u: int, k: int|
        0 <= u < s.unlisted.len() && 0 <= k < s.unlisted[u].1.len() ==> present.contains(
            s.unlisted[u].0 + s.unlisted[u].1[k],
        )
}

/// Keys sorted, in the groups and in each group's tools.
pub open spec fn groups_sorted(all: Seq<(Seq<char>, GroupM)>) -> bool {
    &&& sorted_keys(all)
    &&& forall|g: int| 0 <= g < all.len() ==> sorted_keys(#[trigger] all[g].1.tools)
}

pub proof fn lemma_build_all_sorted(tools: Seq<ToolM>)
    ensures
        groups_sorted(build_all(tools)),
    decreases tools.len(),
{
    if tools.len() > 0 {
        lemma_build_all_sorted(tools.drop_last());
        let all = build_all(tools.drop_last());
        let t = tools.last();
        let name = t.global.skip(t.group.len() as int);
        let g = match lookup(all, t.group) {
            Some(g) => g,
            None => empty_group(),
        };
        if lookup(all, t.group) is Some {
            lemma_lookup_found(all, t.group);
            let i = choose|i: int| 0 <= i < all.len() && all[i].0 == t.group && Some(all[i].1) == lookup(all, t.group);
            assert(sorted_keys(all[i].1.tools));
        }
        let description = if g.description.len() == 0 {
            short_description_spec(t.group_description, MAX_GROUP_DESCRIPTION_CHARS as nat)
        } else {
            g.description
        };
        let ng = GroupM {
            description,
            tools: assoc_put(g.tools, name, short_description_spec(t.description, MAX_TOOL_DESCRIPTION_CHARS as nat)),
        };
        lemma_assoc_put_sorted(g.tools, name, short_description_spec(t.description, MAX_TOOL_DESCRIPTION_CHARS as nat));
        lemma_assoc_put_sorted(all, t.group, ng);
        let r = assoc_put(all, t.group, ng);
        assert(r == build_all(tools));
        assert forall|k: int| 0 <= k < r.len() implies sorted_keys(#[trigger] r[k].1.tools) by {
            lemma_assoc_put_entries(all, t.group, ng, k);
            if r[k] != (t.group, ng) {
                let j = choose|j: int| 0 <= j < all.len() && all[j] == r[k];
                assert(sorted_keys(all[j].1.tools));
            }
        }
    }
}

proof fn lemma_keep_flagged_sorted(s: Seq<(Seq<char>, Seq<char>)>, flags: Seq<bool>)
    requires
        sorted_keys(s),
    ensures
        sorted_keys(keep_flagged(s, flags)),
        forall|i: int| 0 <= i < keep_flagged(s, flags).len() ==> s.contains(#[trigger] keep_flagged(s, flags)[i]),
    decreases s.len(),
{
    if s.len() > 0 {
        let d = s.drop_last();
        assert(sorted_keys(d));
        lemma_keep_flagged_sorted(d, flags);
        let rest = keep_flagged(d, flags);
        let r = keep_flagged(s, flags);
        assert forall|i: int| 0 <= i < rest.len() implies s.contains(#[trigger] rest[i]) by {
            let j = choose|j: int| 0 <= j < d.len() && d[j] == rest[i];
            assert(s[j] == d[j]);
        }
        if flags[s.len() - 1] {
            assert forall|a: int, b: int| 0 <= a < b < r.len() implies lex_lt(#[trigger] r[a].0, #[trigger] r[b].0) by {
                if b == r.len() - 1 {
                    let j = choose|j: int| 0 <= j < d.len() && d[j] == rest[a];
                    assert(s[j] == d[j]);
                    assert(r[b] == s[s.len() - 1]);
                } else {
                    assert(r[a] == rest[a] && r[b] == rest[b]);
                }
            }
            assert forall|i: int| 0 <= i < r.len() implies s.contains(#[trigger] r[i]) by {
                if i < rest.len() {
                    assert(r[i] == rest[i]);
                    assert(s.contains(rest[i]));
                } else {
                    assert(s[s.len() - 1] == r[i]);
                }
            }
        } else {
            assert(r == rest);
        }
    }
}

proof fn lemma_listed_groups_sorted(all: Seq<(Seq<char>, GroupM)>, chosen: Seq<bool>, n: int)
    requires
        groups_sorted(all),
        n <= all.len(),
    ensures
        forall|g: int| 0 <= g < listed_groups_upto(all, chosen, n).len() ==> sorted_keys(
            #[trigger] listed_groups_upto(all, chosen, n)[g].1.tools,
        ),
    decreases n,
{
    if n > 0 {
        lemma_listed_groups_sorted(all, chosen, n - 1);
        let before = listed_groups_upto(all, chosen, n - 1);
        let base = flat_upto(all, n - 1).len() as int;
        let flags = chosen.subrange(base, base + all[n - 1].1.tools.len());
        assert(sorted_keys(all[n - 1].1.tools));
        lemma_keep_flagged_sorted(all[n - 1].1.tools, flags);
        let r = listed_groups_upto(all, chosen, n);
        assert forall|g: int| 0 <= g < r.len() implies sorted_keys(#[trigger] r[g].1.tools) by {
            if g < before.len() {
                assert(r[g] == before[g]);
            }
        }
    }
}

proof fn lemma_unlisted_fold_present(
    cands: Seq<(Seq<char>, Seq<char>)>,
    present: Seq<Seq<char>>,
    groups: Seq<(Seq<char>, GroupM)>,
)
    ensures
        forall|u: int, k: int|
            0 <= u < unlisted_fold(cands, present, groups).len() && 0 <= k < unlisted_fold(cands, present, groups)[u].1.len()
                ==> present.contains(
                unlisted_fold(cands, present, groups)[u].0 + #[trigger] unlisted_fold(cands, present, groups)[u].1[k],
            ),
    decreases cands.len(),
{
    if cands.len() > 0 {
        lemma_unlisted_fold_present(cands.drop_last(), present, groups);
        let u0 = unlisted_fold(cands.drop_last(), present, groups);
        let (p, n) = cands.last();
        if present.contains(p + n) && !is_listed_in(groups, p, n) {
            let names = lookup_names(u0, p);
            let w = set_put(names, n);
            let r = assoc_put(u0, p, w);
            assert forall|k: int| 0 <= k < names.len() implies present.contains(p + #[trigger] names[k]) by {
                lemma_lookup_found(u0, p);
                let e = choose|e: int| 0 <= e < u0.len() && u0[e].0 == p && Some(u0[e].1) == lookup(u0, p);
                assert(present.contains(u0[e].0 + u0[e].1[k]));
            }
            assert forall|u: int, k: int| 0 <= u < r.len() && 0 <= k < r[u].1.len() implies present.contains(
                r[u].0 + #[trigger] r[u].1[k],
            ) by {
                lemma_assoc_put_entries(u0, p, w, u);
                if r[u] == (p, w) {
                    lemma_set_put_elems(names, n, k);
                    if w[k] != n {
                        let m = choose|m: int| 0 <= m < names.len() && names[m] == w[k];
                        assert(present.contains(p + names[m]));
                    }
                } else {
                    let j = choose|j: int| 0 <= j < u0.len() && u0[j] == r[u];
                    assert(present.contains(u0[j].0 + u0[j].1[k]));
                }
            }
        }
    }
}

proof fn lemma_unlisted_fold_keeps(
    cands: Seq<(Seq<char>, Seq<char>)>,
    present: Seq<Seq<char>>,
    groups: Seq<(Seq<char>, GroupM)>,
    i: int,
)
    requires
        0 <= i < cands.len(),
        present.contains(cands[i].0 + cands[i].1),
        !is_listed_in(groups, cands[i].0, cands[i].1),
    ensures
        lookup_names(unlisted_fold(cands, present, groups), cands[i].0).contains(cands[i].1),
    decreases cands.len(),
{
    let u0 = unlisted_fold(cands.drop_last(), present, groups);
    let (p, n) = cands.last();
    let w = set_put(lookup_names(u0, p), n);
    if i == cands.len() - 1 {
        lemma_lookup_assoc_put_same(u0, p, w);
        lemma_set_put_contains(lookup_names(u0, p), n);
    } else {
        let c = cands[i];
        assert(cands.drop_last()[i] == c);
        lemma_unlisted_fold_keeps(cands.drop_last(), present, groups, i);
        if present.contains(p + n) && !is_listed_in(groups, p, n) {
            if c.0 == p {
                lemma_lookup_assoc_put_same(u0, p, w);
                lemma_set_put_contains(lookup_names(u0, p), n);
            } else {
                lemma_lookup_assoc_put_other(u0, p, w, c.0);
            }
        }
    }
}

/// The tools whose removal the catalog must still announce: those listed
/// in the previous catalog, and those it kept unlisted.
pub open spec fn announced_before(prev: SnapM) -> Seq<(Seq<char>, Seq<char>)> {
    triples(prev.groups).map_values(|t: (Seq<char>, Seq<char>, Seq<char>)| (t.0, t.1)) + unlisted_pairs(prev.unlisted)
}

/// A tool listed before (or kept unlisted before) that is still callable
/// is listed now or kept unlisted: a tool past the budget is not lost, and
/// its removal is still announced when it goes.
pub proof fn lemma_listed_tools_are_kept_track_of(tools: Seq<ToolM>, prev: SnapM, i: int)
    requires
        0 <= i < announced_before(prev).len(),
        tools.map_values(|t: ToolM| t.global).contains(announced_before(prev)[i].0 + announced_before(prev)[i].1),
    ensures
        ({
            let st = new_spec(tools, Some(prev));
            let (p, n) = announced_before(prev)[i];
            is_listed_in(st.catalog.groups, p, n) || lookup_names(st.catalog.unlisted, p).contains(n)
        }),
{
    let st = new_spec(tools, Some(prev));
    let (p, n) = announced_before(prev)[i];
    if !is_listed_in(st.catalog.groups, p, n) {
        lemma_unlisted_fold_keeps(announced_before(prev), st.present, st.catalog.groups, i);
    }
}

proof fn lemma_drop_named(s: Seq<(Seq<char>, Seq<char>)>, names: Seq<Seq<char>>)
    ensures
        forall|i: int| 0 <= i < drop_named(s, names).len() ==> !names.contains(#[trigger] drop_named(s, names)[i].0),
    decreases s.len(),
{
    if s.len() > 0 {
        lemma_drop_named(s.drop_last(), names);
        let rest = drop_named(s.drop_last(), names);
        assert forall|i: int| 0 <= i < drop_named(s, names).len() implies !names.contains(#[trigger] drop_named(s, names)[i].0) by {
            if i < rest.len() {
                assert(drop_named(s, names)[i] == rest[i]);
            }
        }
    }
}

proof fn lemma_collect_map(s: Seq<(Seq<char>, Seq<char>)>)
    ensures
        collect_map(s).len() <= s.len(),
        forall|i: int| 0 <= i < collect_map(s).len() ==> exists|j: int| 0 <= j < s.len() && s[j] == #[trigger] collect_map(s)[i],
    decreases s.len(),
{
    if s.len() > 0 {
        let d = s.drop_last();
        lemma_collect_map(d);
        let m = collect_map(d);
        let (k, w) = s.last();
        lemma_sorted_pos_bounds(m, k);
        let r = collect_map(s);
        assert forall|i: int| 0 <= i < r.len() implies exists|j: int| 0 <= j < s.len() && s[j] == #[trigger] r[i] by {
            lemma_assoc_put_entries(m, k, w, i);
            if r[i] == (k, w) {
                assert(s[s.len() - 1] == r[i]);
            } else {
                let a = choose|a: int| 0 <= a < m.len() && m[a] == r[i];
                let b = choose|b: int| 0 <= b < d.len() && d[b] == m[a];
                assert(s[b] == d[b]);
            }
        }
    }
}

/// What the catalog remembers is what history holds but the listing does
/// not: no tool listed now is remembered, and at most [`MAX_REMEMBERED`]
/// are.
pub proof fn lemma_remembered_is_not_listed(prev: SnapM, groups: Seq<(Seq<char>, GroupM)>)
    ensures
        remembered_spec(prev, groups).len() <= MAX_REMEMBERED,
        forall|i: int|
            0 <= i < remembered_spec(prev, groups).len() ==> !full_names(groups).contains(
                #[trigger] remembered_spec(prev, groups)[i].0,
            ),
{
    let cands = drop_named(prev.remembered + full_pairs(prev.groups), full_names(groups));
    let n = if cands.len() <= MAX_REMEMBERED { cands.len() as int } else { MAX_REMEMBERED as int };
    let t = cands.take(n);
    lemma_drop_named(prev.remembered + full_pairs(prev.groups), full_names(groups));
    lemma_collect_map(t);
    let r = collect_map(t);
    assert forall|i: int| 0 <= i < r.len() implies !full_names(groups).contains(#[trigger] r[i].0) by {
        let j = choose|j: int| 0 <= j < t.len() && t[j] == r[i];
        assert(t[j] == cands[j]);
    }
}

proof fn lemma_select_pass_budget(es: Seq<EntryM>, listed: Seq<bool>, sticky: bool, st: SelM, n: int)
    requires
        0 <= st.remaining <= MAX_LISTED_BYTES,
    ensures
        0 <= select_pass(es, listed, sticky, st, n).remaining <= st.remaining,
    decreases n,
{
    if n > 0 {
        lemma_select_pass_budget(es, listed, sticky, st, n - 1);
    }
}

/// The budget left after choosing is never negative.
pub proof fn lemma_selection_within_budget(all: Seq<(Seq<char>, GroupM)>, prev: Option<SnapM>)
    ensures
        0 <= selection(all, prev).remaining <= MAX_LISTED_BYTES,
{
    let es = flat(all);
    let listed = listed_flags(es, prev);
    let st0 = SelM {
        remaining: MAX_LISTED_BYTES as int,
        paid: Seq::new(all.len(), |i: int| false),
        chosen: Seq::new(es.len(), |i: int| false),
    };
    lemma_select_pass_budget(es, listed, true, st0, es.len() as int);
    lemma_select_pass_budget(es, listed, false, select_pass(es, listed, true, st0, es.len() as int), es.len() as int);
}

/// The catalog made for any tools, after any previous catalog, keeps
/// itself well-formed: within a group each name is listed once, and each
/// name kept unlisted is callable now.
pub proof fn lemma_new_catalog_is_wf(tools: Seq<ToolM>, prev: Option<SnapM>)
    ensures
        catalog_wf(new_spec(tools, prev).catalog, new_spec(tools, prev).present),
{
    let all = build_all(tools);
    lemma_build_all_sorted(tools);
    let sel = selection(all, prev);
    let groups = listed_groups(all, sel.chosen);
    lemma_listed_groups_sorted(all, sel.chosen, all.len() as int);
    assert forall|g: int| 0 <= g < groups.len() implies unique_keys(#[trigger] groups[g].1.tools) by {
        lemma_sorted_unique(groups[g].1.tools);
    }
    let present = tools.map_values(|t: ToolM| t.global);
    match prev {
        Some(p) => {
            lemma_unlisted_fold_present(
                triples(p.groups).map_values(|t: (Seq<char>, Seq<char>, Seq<char>)| (t.0, t.1)) + unlisted_pairs(p.unlisted),
                present,
                groups,
            );
        },
        None => {},
    }
}

proof fn lemma_unlisted_fold_sound(
    cands: Seq<(Seq<char>, Seq<char>)>,
    present: Seq<Seq<char>>,
    groups: Seq<(Seq<char>, GroupM)>,
    p: Seq<char>,
    n: Seq<char>,
)
    requires
        lookup_names(unlisted_fold(cands, present, groups), p).contains(n),
    ensures
        cands.contains((p, n)),
        present.contains(p + n),
        !is_listed_in(groups, p, n),
    decreases cands.len(),
{
    if cands.len() > 0 {
        let d = cands.drop_last();
        let u0 = unlisted_fold(d, present, groups);
        let (q, m) = cands.last();
        if present.contains(q + m) && !is_listed_in(groups, q, m) {
            let names = lookup_names(u0, q);
            let w = set_put(names, m);
            if p == q {
                lemma_lookup_assoc_put_same(u0, q, w);
                let k = choose|k: int| 0 <= k < w.len() && w[k] == n;
                lemma_set_put_elems(names, m, k);
                if n == m {
                    assert(cands[cands.len() - 1] == (p, n));
                } else {
                    lemma_unlisted_fold_sound(d, present, groups, p, n);
                }
            } else {
                lemma_lookup_assoc_put_other(u0, q, w, p);
                lemma_unlisted_fold_sound(d, present, groups, p, n);
            }
        } else {
            lemma_unlisted_fold_sound(d, present, groups, p, n);
        }
        if d.contains((p, n)) {
            let j = choose|j: int| 0 <= j < d.len() && d[j] == (p, n);
            assert(cands[j] == (p, n));
        }
    }
}

proof fn lemma_drop_named_from(s: Seq<(Seq<char>, Seq<char>)>, names: Seq<Seq<char>>)
    ensures
        forall|i: int| 0 <= i < drop_named(s, names).len() ==> s.contains(#[trigger] drop_named(s, names)[i]),
    decreases s.len(),
{
    if s.len() > 0 {
        let d = s.drop_last();
        lemma_drop_named_from(d, names);
        let rest = drop_named(d, names);
        assert forall|i: int| 0 <= i < drop_named(s, names).len() implies s.contains(#[trigger] drop_named(s, names)[i]) by {
            if i < rest.len() {
                assert(drop_named(s, names)[i] == rest[i]);
                let j = choose|j: int| 0 <= j < d.len() && d[j] == rest[i];
                assert(s[j] == d[j]);
            } else {
                assert(s[s.len() - 1] == drop_named(s, names)[i]);
            }
        }
    }
}

/// What a new catalog remembers and keeps unlisted, after a previous one:
/// at most [`MAX_REMEMBERED`] descriptions are remembered, none of a tool
/// listed now, each one remembered before or listed before; and a tool is
/// kept unlisted under its prefix exactly when it was listed or kept
/// unlisted before, is still callable, and is not listed now.
pub proof fn lemma_remembered_and_unlisted(tools: Seq<ToolM>, prev: SnapM)
    ensures
        ({
            let c = new_spec(tools, Some(prev)).catalog;
            let present = tools.map_values(|t: ToolM| t.global);
            &&& c.remembered.len() <= MAX_REMEMBERED
            &&& forall|i: int| 0 <= i < c.remembered.len() ==> !full_names(c.groups).contains(#[trigger] c.remembered[i].0)
            &&& forall|i: int|
                0 <= i < c.remembered.len() ==> (prev.remembered + full_pairs(prev.groups)).contains(
                    #[trigger] c.remembered[i],
                )
            &&& forall|p: Seq<char>, n: Seq<char>|
                #[trigger] lookup_names(c.unlisted, p).contains(n) <==> (announced_before(prev).contains((p, n))
                    && present.contains(p + n) && !is_listed_in(c.groups, p, n))
        }),
{
    let st = new_spec(tools, Some(prev));
    let c = st.catalog;
    let groups = c.groups;
    let present = st.present;
    lemma_remembered_is_not_listed(prev, groups);
    let all_r = prev.remembered + full_pairs(prev.groups);
    let cands = drop_named(all_r, full_names(groups));
    let m = if cands.len() <= MAX_REMEMBERED { cands.len() as int } else { MAX_REMEMBERED as int };
    let t = cands.take(m);
    lemma_drop_named_from(all_r, full_names(groups));
    lemma_collect_map(t);
    assert forall|i: int| 0 <= i < c.remembered.len() implies all_r.contains(#[trigger] c.remembered[i]) by {
        let j = choose|j: int| 0 <= j < t.len() && t[j] == c.remembered[i];
        assert(t[j] == cands[j]);
        assert(all_r.contains(cands[j]));
    }
    let ab = announced_before(prev);
    assert forall|p: Seq<char>, n: Seq<char>|
        #[trigger] lookup_names(c.unlisted, p).contains(n) <==> (ab.contains((p, n)) && present.contains(p + n)
            && !is_listed_in(groups, p, n)) by {
        if lookup_names(c.unlisted, p).contains(n) {
            lemma_unlisted_fold_sound(ab, present, groups, p, n);
        }
        if ab.contains((p, n)) && present.contains(p + n) && !is_listed_in(groups, p, n) {
            let i = choose|i: int| 0 <= i < ab.len() && ab[i] == (p, n);
            lemma_unlisted_fold_keeps(ab, present, groups, i);
        }
    }
}

/// Tool `(name, d)` of group `prefix` is input tool `t`: the name follows
/// the group prefix in its global name, and `d` is its short description.
pub open spec fn entry_of_tool(prefix: Seq<char>, tool: (Seq<char>, Seq<char>), t: ToolM) -> bool {
    &&& t.group == prefix
    &&& t.global.skip(t.group.len() as int) == tool.0
    &&& tool.1 == short_description_spec(t.description, MAX_TOOL_DESCRIPTION_CHARS as nat)
}

/// Tool `tool` of group `prefix` is one of the input tools.
pub open spec fn tool_from_input(tools: Seq<ToolM>, prefix: Seq<char>, tool: (Seq<char>, Seq<char>)) -> bool {
    exists|i: int| 0 <= i < tools.len() && #[trigger] entry_of_tool(prefix, tool, tools[i])
}

/// Every tool filed is an input tool, by its name and short description.
pub proof fn lemma_build_all_from(tools: Seq<ToolM>)
    ensures
        forall|g: int, ti: int|
            0 <= g < build_all(tools).len() && 0 <= ti < build_all(tools)[g].1.tools.len() ==> tool_from_input(
                tools,
                build_all(tools)[g].0,
                #[trigger] build_all(tools)[g].1.tools[ti],
            ),
    decreases tools.len(),
{
    if tools.len() > 0 {
        let d = tools.drop_last();
        lemma_build_all_from(d);
        let all = build_all(d);
        let t = tools.last();
        let name = t.global.skip(t.group.len() as int);
        let g0 = match lookup(all, t.group) {
            Some(g) => g,
            None => empty_group(),
        };
        let sd = short_description_spec(t.description, MAX_TOOL_DESCRIPTION_CHARS as nat);
        let description = if g0.description.len() == 0 {
            short_description_spec(t.group_description, MAX_GROUP_DESCRIPTION_CHARS as nat)
        } else {
            g0.description
        };
        let newg = GroupM { description, tools: assoc_put(g0.tools, name, sd) };
        let r = build_all(tools);
        assert(r == assoc_put(all, t.group, newg));
        assert forall|g: int, ti: int| 0 <= g < r.len() && 0 <= ti < r[g].1.tools.len() implies tool_from_input(
            tools,
            r[g].0,
            #[trigger] r[g].1.tools[ti],
        ) by {
            lemma_assoc_put_entries(all, t.group, newg, g);
            if r[g] == (t.group, newg) {
                lemma_assoc_put_entries(g0.tools, name, sd, ti);
                if r[g].1.tools[ti] == (name, sd) {
                    assert(entry_of_tool(r[g].0, r[g].1.tools[ti], tools[tools.len() - 1]));
                } else {
                    let j = choose|j: int| 0 <= j < g0.tools.len() && g0.tools[j] == r[g].1.tools[ti];
                    lemma_lookup_found(all, t.group);
                    let a = choose|a: int| 0 <= a < all.len() && all[a].0 == t.group && Some(all[a].1) == lookup(all, t.group);
                    assert(all[a].1.tools[j] == r[g].1.tools[ti]);
                    assert(tool_from_input(d, all[a].0, all[a].1.tools[j]));
                    let i = choose|i: int| 0 <= i < d.len() && #[trigger] entry_of_tool(all[a].0, all[a].1.tools[j], d[i]);
                    assert(tools[i] == d[i]);
                    assert(entry_of_tool(r[g].0, r[g].1.tools[ti], tools[i]));
                }
            } else {
                let a = choose|a: int| 0 <= a < all.len() && all[a] == r[g];
                assert(all[a].1.tools[ti] == r[g].1.tools[ti]);
                assert(tool_from_input(d, all[a].0, all[a].1.tools[ti]));
                let i = choose|i: int| 0 <= i < d.len() && #[trigger] entry_of_tool(all[a].0, all[a].1.tools[ti], d[i]);
                assert(tools[i] == d[i]);
                assert(entry_of_tool(r[g].0, r[g].1.tools[ti], tools[i]));
            }
        }
    }
}

proof fn lemma_select_pass_len(es: Seq<EntryM>, listed: Seq<bool>, sticky: bool, st: SelM, n: int)
    requires
        n <= st.chosen.len(),
    ensures
        select_pass(es, listed, sticky, st, n).chosen.len() == st.chosen.len(),
    decreases n,
{
    if n > 0 {
        lemma_select_pass_len(es, listed, sticky, st, n - 1);
    }
}

/// One flag per entry.
pub proof fn lemma_selection_len(all: Seq<(Seq<char>, GroupM)>, prev: Option<SnapM>)
    ensures
        selection(all, prev).chosen.len() == flat(all).len(),
{
    let es = flat(all);
    let listed = listed_flags(es, prev);
    let st0 = SelM {
        remaining: MAX_LISTED_BYTES as int,
        paid: Seq::new(all.len(), |i: int| false),
        chosen: Seq::new(es.len(), |i: int| false),
    };
    lemma_select_pass_len(es, listed, true, st0, es.len() as int);
    lemma_select_pass_len(es, listed, false, select_pass(es, listed, true, st0, es.len() as int), es.len() as int);
}

/// No two input tools share a global name, and each tool's group is the
/// start of its global name.
pub open spec fn tools_wf_m(tools: Seq<ToolM>) -> bool {
    &&& forall|i: int|
        0 <= i < tools.len() ==> (#[trigger] tools[i]).group.len() <= tools[i].global.len()
            && tools[i].global.take(tools[i].group.len() as int) == tools[i].group
    &&& forall|i: int, j: int| 0 <= i < j < tools.len() ==> (#[trigger] tools[i]).global != (#[trigger] tools[j]).global
}

/// Number of tools over all groups.
pub open spec fn tools_count(all: Seq<(Seq<char>, GroupM)>) -> int
    decreases all.len(),
{
    if all.len() == 0 {
        0
    } else {
        tools_count(all.drop_last()) + all.last().1.tools.len()
    }
}

proof fn lemma_tools_count_update(s: Seq<(Seq<char>, GroupM)>, i: int, x: (Seq<char>, GroupM))
    requires
        0 <= i < s.len(),
    ensures
        tools_count(s.update(i, x)) == tools_count(s) - s[i].1.tools.len() + x.1.tools.len(),
    decreases s.len(),
{
    if i < s.len() - 1 {
        lemma_tools_count_update(s.drop_last(), i, x);
        assert(s.update(i, x).drop_last() =~= s.drop_last().update(i, x));
    } else {
        assert(s.update(i, x).drop_last() =~= s.drop_last());
    }
}

proof fn lemma_tools_count_insert(s: Seq<(Seq<char>, GroupM)>, i: int, x: (Seq<char>, GroupM))
    requires
        0 <= i <= s.len(),
    ensures
        tools_count(s.insert(i, x)) == tools_count(s) + x.1.tools.len(),
    decreases s.len(),
{
    if i < s.len() {
        lemma_tools_count_insert(s.drop_last(), i, x);
        assert(s.insert(i, x).drop_last() =~= s.drop_last().insert(i, x));
    } else {
        assert(s.insert(i, x).drop_last() =~= s);
    }
}

proof fn lemma_flat_len(all: Seq<(Seq<char>, GroupM)>, n: int)
    requires
        0 <= n <= all.len(),
    ensures
        flat_upto(all, n).len() == tools_count(all.take(n)),
    decreases n,
{
    if n > 0 {
        lemma_flat_len(all, n - 1);
        assert(all.take(n).drop_last() =~= all.take(n - 1));
    } else {
        assert(all.take(0).len() == 0);
    }
}

/// Where a key is not found by its sorted position, no entry has it.
proof fn lemma_key_absent<W>(s: Seq<(Seq<char>, W)>, k: Seq<char>)
    requires
        sorted_keys(s),
        !(sorted_pos(s, k) < s.len() && s[sorted_pos(s, k)].0 == k),
    ensures
        forall|j: int| 0 <= j < s.len() ==> #[trigger] s[j].0 != k,
{
    lemma_sorted_pos_bounds(s, k);
    let p = sorted_pos(s, k);
    assert forall|j: int| 0 <= j < s.len() implies #[trigger] s[j].0 != k by {
        if j < p {
            lemma_lex_irreflexive(k);
        } else {
            lemma_lex_total(s[p].0, k);
            if j > p {
                assert(lex_lt(s[p].0, s[j].0));
                if s[j].0 == k {
                    lemma_lex_transitive(k, s[p].0, k);
                    lemma_lex_irreflexive(k);
                }
            }
        }
    }
}

/// With distinct global names, every input tool is filed once: the
/// catalog holds as many tools as it was given.
pub proof fn lemma_build_all_count(tools: Seq<ToolM>)
    requires
        tools_wf_m(tools),
    ensures
        flat(build_all(tools)).len() == tools.len(),
    decreases tools.len(),
{
    let all = build_all(tools);
    lemma_flat_len(all, all.len() as int);
    assert(all.take(all.len() as int) =~= all);
    if tools.len() > 0 {
        let d = tools.drop_last();
        assert(tools_wf_m(d)) by {
            assert forall|i: int| 0 <= i < d.len() implies (#[trigger] d[i]).group.len() <= d[i].global.len()
                && d[i].global.take(d[i].group.len() as int) == d[i].group by {
                assert(d[i] == tools[i]);
            }
            assert forall|i: int, j: int| 0 <= i < j < d.len() implies (#[trigger] d[i]).global != (#[trigger] d[j]).global by {
                assert(d[i] == tools[i] && d[j] == tools[j]);
            }
        }
        lemma_build_all_count(d);
        let a0 = build_all(d);
        lemma_flat_len(a0, a0.len() as int);
        assert(a0.take(a0.len() as int) =~= a0);
        lemma_build_all_sorted(d);
        lemma_build_all_from(d);
        let t = tools.last();
        let name = t.global.skip(t.group.len() as int);
        let g0 = match lookup(a0, t.group) {
            Some(g) => g,
            None => empty_group(),
        };
        let sd = short_description_spec(t.description, MAX_TOOL_DESCRIPTION_CHARS as nat);
        let description = if g0.description.len() == 0 {
            short_description_spec(t.group_description, MAX_GROUP_DESCRIPTION_CHARS as nat)
        } else {
            g0.description
        };
        let newg = GroupM { description, tools: assoc_put(g0.tools, name, sd) };
        assert(all == assoc_put(a0, t.group, newg));
        // The new tool's name is not in its group yet.
        lemma_sorted_pos_bounds(g0.tools, name);
        let hit = sorted_pos(g0.tools, name) < g0.tools.len() && g0.tools[sorted_pos(g0.tools, name)].0 == name;
        if hit {
            let j = sorted_pos(g0.tools, name);
            lemma_lookup_found(a0, t.group);
            let a = choose|a: int| 0 <= a < a0.len() && a0[a].0 == t.group && Some(a0[a].1) == lookup(a0, t.group);
            assert(a0[a].1 == g0);
            assert(0 <= j < a0[a].1.tools.len());
            assert(a0[a].1.tools[j] == g0.tools[j]);
            assert(tool_from_input(d, build_all(d)[a].0, build_all(d)[a].1.tools[j]));
            let i = choose|i: int| 0 <= i < d.len() && #[trigger] entry_of_tool(a0[a].0, a0[a].1.tools[j], d[i]);
            let u = d[i];
            assert(u == tools[i]);
            let l = t.group.len() as int;
            assert(u.global =~= u.global.take(l) + u.global.skip(l));
            assert(t == tools[tools.len() - 1]);
            assert(t.global =~= t.global.take(l) + t.global.skip(l));
            assert(false);
        }
        assert(sorted_keys(g0.tools)) by {
            if lookup(a0, t.group) is Some {
                lemma_lookup_found(a0, t.group);
                let a = choose|a: int| 0 <= a < a0.len() && a0[a].0 == t.group && Some(a0[a].1) == lookup(a0, t.group);
                assert(sorted_keys(a0[a].1.tools));
            }
        }
        lemma_sorted_pos_bounds(g0.tools, name);
        assert(newg.tools.len() == g0.tools.len() + 1);
        let gp = sorted_pos(a0, t.group);
        lemma_sorted_pos_bounds(a0, t.group);
        if gp < a0.len() && a0[gp].0 == t.group {
            lemma_sorted_unique(a0);
            lemma_lookup_unique(a0, gp);
            lemma_tools_count_update(a0, gp, (t.group, newg));
        } else {
            lemma_key_absent(a0, t.group);
            if lookup(a0, t.group) is Some {
                lemma_lookup_found(a0, t.group);
            }
            assert(g0.tools.len() == 0);
            lemma_tools_count_insert(a0, gp, (t.group, newg));
        }
    }
}

/// Where group `g`'s entries start in listing order.
pub open spec fn base_of(all: Seq<(Seq<char>, GroupM)>, g: int) -> int {
    flat_upto(all, g).len() as int
}

/// The chosen tools of group `g`, in name order.
pub open spec fn kept_tools(all: Seq<(Seq<char>, GroupM)>, chosen: Seq<bool>, g: int) -> Seq<(Seq<char>, Seq<char>)> {
    keep_flagged(all[g].1.tools, chosen.subrange(base_of(all, g), base_of(all, g) + all[g].1.tools.len()))
}

pub proof fn lemma_flat_prefix(all: Seq<(Seq<char>, GroupM)>, m: int, n: int)
    requires
        0 <= m <= n,
    ensures
        flat_upto(all, m).len() <= flat_upto(all, n).len(),
        forall|k: int| 0 <= k < flat_upto(all, m).len() ==> #[trigger] flat_upto(all, n)[k] == flat_upto(all, m)[k],
    decreases n,
{
    lemma_flat_upto_len(all, m, n);
    if m < n {
        lemma_flat_prefix(all, m, n - 1);
        lemma_flat_upto_len(all, m, n - 1);
        assert forall|k: int| 0 <= k < flat_upto(all, m).len() implies #[trigger] flat_upto(all, n)[k] == flat_upto(all, m)[k] by {
            assert(flat_upto(all, n)[k] == flat_upto(all, n - 1)[k]);
        }
    }
}

pub proof fn lemma_flat_at(all: Seq<(Seq<char>, GroupM)>, g: int, ti: int)
    requires
        0 <= g < all.len(),
        0 <= ti < all[g].1.tools.len(),
    ensures
        base_of(all, g) + ti < flat(all).len(),
        flat(all)[base_of(all, g) + ti] == group_entries(all, g)[ti],
{
    lemma_flat_prefix(all, g + 1, all.len() as int);
    assert(flat_upto(all, g + 1)[base_of(all, g) + ti] == group_entries(all, g)[ti]);
}

pub proof fn lemma_flat_locate(all: Seq<(Seq<char>, GroupM)>, n: int, k: int) -> (g: int)
    requires
        0 <= n <= all.len(),
        0 <= k < flat_upto(all, n).len(),
    ensures
        0 <= g < n,
        base_of(all, g) <= k < base_of(all, g) + all[g].1.tools.len(),
    decreases n,
{
    if k < flat_upto(all, n - 1).len() {
        lemma_flat_locate(all, n - 1, k)
    } else {
        n - 1
    }
}

pub proof fn lemma_kf_in(s: Seq<(Seq<char>, Seq<char>)>, f: Seq<bool>, j: int)
    requires
        0 <= j < s.len(),
        f[j],
    ensures
        keep_flagged(s, f).contains(s[j]),
    decreases s.len(),
{
    let r = keep_flagged(s, f);
    if j == s.len() - 1 {
        assert(r[r.len() - 1] == s[j]);
    } else {
        let d = s.drop_last();
        lemma_kf_in(d, f, j);
        let rest = keep_flagged(d, f);
        let i = choose|i: int| 0 <= i < rest.len() && rest[i] == d[j];
        assert(r[i] == rest[i]);
    }
}

pub proof fn lemma_kf_from(s: Seq<(Seq<char>, Seq<char>)>, f: Seq<bool>, i: int)
    requires
        0 <= i < keep_flagged(s, f).len(),
    ensures
        exists|j: int| 0 <= j < s.len() && f[j] && s[j] == keep_flagged(s, f)[i],
    decreases s.len(),
{
    let d = s.drop_last();
    let rest = keep_flagged(d, f);
    if i < rest.len() {
        lemma_kf_from(d, f, i);
        let j = choose|j: int| 0 <= j < d.len() && f[j] && d[j] == rest[i];
        assert(s[j] == d[j]);
        assert(keep_flagged(s, f)[i] == rest[i]);
    } else {
        assert(f[s.len() - 1] && s[s.len() - 1] == keep_flagged(s, f)[i]);
    }
}

/// Listed group `item` is one of the first `n` groups cut down to its
/// chosen tools.
pub open spec fn from_some_group(all: Seq<(Seq<char>, GroupM)>, chosen: Seq<bool>, item: (Seq<char>, GroupM), n: int) -> bool {
    exists|g: int| 0 <= g < n && #[trigger] listed_from(all, chosen, item, g)
}

/// Listed group `item` is group `g` cut down to its chosen tools, which
/// are not none.
pub open spec fn listed_from(
    all: Seq<(Seq<char>, GroupM)>,
    chosen: Seq<bool>,
    item: (Seq<char>, GroupM),
    g: int,
) -> bool {
    &&& item == (all[g].0, GroupM { description: all[g].1.description, tools: kept_tools(all, chosen, g) })
    &&& kept_tools(all, chosen, g).len() > 0
}

proof fn lemma_listed_groups_shape(all: Seq<(Seq<char>, GroupM)>, chosen: Seq<bool>, n: int)
    requires
        0 <= n <= all.len(),
        sorted_keys(all),
    ensures
        sorted_keys(listed_groups_upto(all, chosen, n)),
        forall|j: int|
            0 <= j < listed_groups_upto(all, chosen, n).len() ==> from_some_group(all, chosen, #[trigger] listed_groups_upto(all, chosen, n)[j], n),
        forall|g: int|
            0 <= g < n && #[trigger] kept_tools(all, chosen, g).len() > 0 ==> listed_groups_upto(all, chosen, n).contains(
                (all[g].0, GroupM { description: all[g].1.description, tools: kept_tools(all, chosen, g) }),
            ),
    decreases n,
{
    if n > 0 {
        lemma_listed_groups_shape(all, chosen, n - 1);
        let before = listed_groups_upto(all, chosen, n - 1);
        let r = listed_groups_upto(all, chosen, n);
        let g0 = n - 1;
        let item = (all[g0].0, GroupM { description: all[g0].1.description, tools: kept_tools(all, chosen, g0) });
        if kept_tools(all, chosen, g0).len() > 0 {
            assert(r == before.push(item));
            assert forall|a: int, b: int| 0 <= a < b < r.len() implies lex_lt(#[trigger] r[a].0, #[trigger] r[b].0) by {
                if b == r.len() - 1 {
                    let g = choose|g: int| 0 <= g < n - 1 && #[trigger] listed_from(all, chosen, before[a], g);
                    assert(r[a] == before[a]);
                } else {
                    assert(r[a] == before[a] && r[b] == before[b]);
                }
            }
            assert forall|j: int| 0 <= j < r.len() implies from_some_group(all, chosen, #[trigger] r[j], n) by {
                if j < before.len() {
                    assert(r[j] == before[j]);
                    let g = choose|g: int| 0 <= g < n - 1 && #[trigger] listed_from(all, chosen, before[j], g);
                    assert(listed_from(all, chosen, r[j], g));
                } else {
                    assert(r[j] == item);
                    assert(listed_from(all, chosen, r[j], g0));
                }
            }
            assert forall|g: int|
                0 <= g < n && #[trigger] kept_tools(all, chosen, g).len() > 0 implies r.contains(
                (all[g].0, GroupM { description: all[g].1.description, tools: kept_tools(all, chosen, g) }),
            ) by {
                if g < n - 1 {
                    let x = (all[g].0, GroupM { description: all[g].1.description, tools: kept_tools(all, chosen, g) });
                    let j = choose|j: int| 0 <= j < before.len() && before[j] == x;
                    assert(r[j] == x);
                } else {
                    assert(r[r.len() - 1] == item);
                }
            }
        } else {
            assert(r == before);
            assert forall|j: int| 0 <= j < r.len() implies from_some_group(all, chosen, #[trigger] r[j], n) by {
                assert(r[j] == before[j]);
                let g = choose|g: int| 0 <= g < n - 1 && #[trigger] listed_from(all, chosen, before[j], g);
                assert(listed_from(all, chosen, r[j], g));
            }
        }
    }
}

proof fn lemma_kf_len(s: Seq<(Seq<char>, Seq<char>)>, f: Seq<bool>)
    requires
        f.len() >= s.len(),
    ensures
        keep_flagged(s, f).len() == count_true(f.take(s.len() as int)),
    decreases s.len(),
{
    if s.len() > 0 {
        lemma_kf_len(s.drop_last(), f);
        assert(f.take(s.len() as int).drop_last() =~= f.take(s.len() - 1));
    } else {
        assert(f.take(0).len() == 0);
    }
}

proof fn lemma_count_true_split(c: Seq<bool>, b: int, l: int)
    requires
        0 <= b,
        0 <= l,
        b + l <= c.len(),
    ensures
        count_true(c.take(b + l)) == count_true(c.take(b)) + count_true(c.subrange(b, b + l)),
    decreases l,
{
    if l == 0 {
        assert(c.subrange(b, b).len() == 0);
        assert(c.take(b + 0) =~= c.take(b));
    } else {
        lemma_count_true_split(c, b, l - 1);
        assert(c.take(b + l).drop_last() =~= c.take(b + l - 1));
        assert(c.subrange(b, b + l).drop_last() =~= c.subrange(b, b + l - 1));
    }
}

proof fn lemma_listed_count(all: Seq<(Seq<char>, GroupM)>, chosen: Seq<bool>, n: int)
    requires
        0 <= n <= all.len(),
        chosen.len() == flat(all).len(),
    ensures
        triples(listed_groups_upto(all, chosen, n)).len() == count_true(chosen.take(base_of(all, n))),
    decreases n,
{
    if n == 0 {
        assert(chosen.take(0).len() == 0);
    } else {
        lemma_listed_count(all, chosen, n - 1);
        let g = n - 1;
        let b = base_of(all, g);
        let l = all[g].1.tools.len() as int;
        lemma_flat_prefix(all, n, all.len() as int);
        assert(base_of(all, n) == b + l);
        let f = chosen.subrange(b, b + l);
        lemma_kf_len(all[g].1.tools, f);
        assert(f.take(l) =~= f);
        lemma_count_true_split(chosen, b, l);
        let before = listed_groups_upto(all, chosen, g);
        let kt = kept_tools(all, chosen, g);
        if kt.len() > 0 {
            let r = before.push((all[g].0, GroupM { description: all[g].1.description, tools: kt }));
            assert(r.drop_last() =~= before);
        }
    }
}

/// Every chosen tool and only those: the listing holds as many tools as
/// were chosen.
pub proof fn lemma_listed_count_is_chosen(all: Seq<(Seq<char>, GroupM)>, chosen: Seq<bool>)
    requires
        chosen.len() == flat(all).len(),
    ensures
        triples(listed_groups(all, chosen)).len() == count_true(chosen),
{
    lemma_listed_count(all, chosen, all.len() as int);
    assert(chosen.take(flat(all).len() as int) =~= chosen);
}

/// The listed groups are the choice made of the catalog: no group is
/// empty; a chosen tool is listed under its prefix with its description
/// (and its group's description); and every listed tool is a chosen one.
pub proof fn lemma_listed_groups_match_choice(all: Seq<(Seq<char>, GroupM)>, chosen: Seq<bool>)
    requires
        groups_sorted(all),
        chosen.len() == flat(all).len(),
    ensures
        sorted_keys(listed_groups(all, chosen)),
        forall|g: int| 0 <= g < listed_groups(all, chosen).len() ==> #[trigger] listed_groups(all, chosen)[g].1.tools.len() > 0,
        forall|k: int|
            0 <= k < flat(all).len() && #[trigger] chosen[k] ==> (lookup(listed_groups(all, chosen), flat(all)[k].prefix) matches Some(
                grp,
            ) && grp.description == flat(all)[k].gdesc && lookup(grp.tools, flat(all)[k].name) == Some(flat(all)[k].desc)),
        forall|p: Seq<char>, n: Seq<char>|
            #[trigger] is_listed_in(listed_groups(all, chosen), p, n) ==> exists|k: int|
                0 <= k < flat(all).len() && chosen[k] && flat(all)[k].prefix == p && flat(all)[k].name == n,
{
    let n = all.len() as int;
    let lg = listed_groups(all, chosen);
    lemma_listed_groups_shape(all, chosen, n);
    lemma_sorted_unique(lg);
    assert forall|g: int| 0 <= g < lg.len() implies #[trigger] lg[g].1.tools.len() > 0 by {
        let h = choose|h: int| 0 <= h < n && #[trigger] listed_from(all, chosen, lg[g], h);
    }
    assert forall|k: int| 0 <= k < flat(all).len() && #[trigger] chosen[k] implies (lookup(lg, flat(all)[k].prefix) matches Some(
        grp,
    ) && grp.description == flat(all)[k].gdesc && lookup(grp.tools, flat(all)[k].name) == Some(flat(all)[k].desc)) by {
        let g = lemma_flat_locate(all, n, k);
        let ti = k - base_of(all, g);
        lemma_flat_at(all, g, ti);
        lemma_flat_prefix(all, g + 1, n);
        assert(flat_upto(all, g + 1).len() == base_of(all, g) + all[g].1.tools.len());
        let f = chosen.subrange(base_of(all, g), base_of(all, g) + all[g].1.tools.len());
        assert(f[ti] == chosen[k]);
        lemma_kf_in(all[g].1.tools, f, ti);
        let kt = kept_tools(all, chosen, g);
        let item = (all[g].0, GroupM { description: all[g].1.description, tools: kt });
        let j = choose|j: int| 0 <= j < lg.len() && lg[j] == item;
        lemma_lookup_unique(lg, j);
        assert(sorted_keys(all[g].1.tools));
        lemma_keep_flagged_sorted(all[g].1.tools, f);
        lemma_sorted_unique(kt);
        let i = choose|i: int| 0 <= i < kt.len() && kt[i] == all[g].1.tools[ti];
        lemma_lookup_unique(kt, i);
    }
    assert forall|p: Seq<char>, nm: Seq<char>| #[trigger] is_listed_in(lg, p, nm) implies exists|k: int|
        0 <= k < flat(all).len() && chosen[k] && flat(all)[k].prefix == p && flat(all)[k].name == nm by {
        lemma_lookup_found(lg, p);
        let j = choose|j: int| 0 <= j < lg.len() && lg[j].0 == p && Some(lg[j].1) == lookup(lg, p);
        let g = choose|g: int| 0 <= g < n && #[trigger] listed_from(all, chosen, lg[j], g);
        let kt = kept_tools(all, chosen, g);
        lemma_lookup_found(kt, nm);
        let i = choose|i: int| 0 <= i < kt.len() && kt[i].0 == nm && Some(kt[i].1) == lookup(kt, nm);
        lemma_flat_prefix(all, g + 1, n);
        assert(flat_upto(all, g + 1).len() == base_of(all, g) + all[g].1.tools.len());
        let f = chosen.subrange(base_of(all, g), base_of(all, g) + all[g].1.tools.len());
        lemma_kf_from(all[g].1.tools, f, i);
        let ti = choose|ti: int| 0 <= ti < all[g].1.tools.len() && f[ti] && all[g].1.tools[ti] == kt[i];
        lemma_flat_at(all, g, ti);
        let k = base_of(all, g) + ti;
        assert(chosen[k] == f[ti]);
        assert(flat(all)[k].prefix == p && flat(all)[k].name == nm);
    }
}

impl ToolCatalogSnapshot {
    /// Every listed tool by its full name (prefix and name), with its short
    /// description, in listing order.
    pub fn listed(&self) -> (r: Vec<(Vec<char>, Vec<char>)>)
        ensures
            ev(r@) == full_pairs(self@.groups),
    {
        let ts = triples_exec(&self.groups);
        let mut r: Vec<(Vec<char>, Vec<char>)> = Vec::new();
        let mut i: usize = 0;
        while i < ts.len()
            invariant
                i <= ts.len(),
                tv(ts@) == triples(self@.groups),
                ev(r@).len() == i,
                forall|j: int| 0 <= j < i ==> #[trigger] ev(r@)[j] == (tv(ts@)[j].0 + tv(ts@)[j].1, tv(ts@)[j].2),
            decreases ts.len() - i,
        {
            let full = concat_chars(&ts[i].0, &ts[i].1);
            let d = clone_chars(&ts[i].2);
            let ghost old_r = r@;
            r.push((full, d));
            proof {
                assert(ev(r@)[i as int] == (r@[i as int].0@, r@[i as int].1@));
                assert(tv(ts@)[i as int] == (ts@[i as int].0@, ts@[i as int].1@, ts@[i as int].2@));
                assert forall|j: int| 0 <= j < i implies #[trigger] ev(r@)[j] == ev(old_r)[j] by {
                    assert(r@[j] == old_r[j]);
                }
            }
            i = i + 1;
        }
        assert(ev(r@) =~= full_pairs(self@.groups));
        r
    }
}

/// Deferred nested tools available to `exec` for one sampling step.
pub struct ToolCatalogState {
    pub catalog: ToolCatalogSnapshot,
    /// Full names of every tool callable now, listed or not.
    pub present: Vec<Vec<char>>,
    /// Set once the whole catalog was rendered: history then holds only the
    /// descriptions listed now, so nothing else counts as remembered.
    pub rendered_whole: bool,
    /// History already holds a catalog: an empty one is kept as well, so the
    /// next sender with tools gets changes rather than a whole new listing.
    pub had_previous: bool,
}

impl View for ToolCatalogState {
    type V = StateM;

    open spec fn view(&self) -> StateM {
        StateM {
            catalog: self.catalog@,
            present: sv(self.present@),
            rendered_whole: self.rendered_whole,
            had_previous: self.had_previous,
        }
    }
}

impl ToolCatalogState {
    /// The catalog of `tools`; `previous` is the catalog the model saw last,
    /// if any.
    ///
    /// The listing is bounded by [`MAX_LISTED_BYTES`]. Tools listed last
    /// time go first, so a tool does not drop out because another one
    /// arrived; tools left out are counted in `omitted`, and those listed
    /// before are kept in `unlisted` so that their removal is announced.
    /// (The laws: `lemma_new_listing_within_budget`,
    /// `lemma_listed_before_stays_listed` and
    /// `lemma_new_catalog_lists_its_choice` in `listing_budget`, and
    /// `lemma_remembered_and_unlisted`.)
    #[verifier::rlimit(40)]
    #[verifier::spinoff_prover]
    pub fn new(tools: Vec<CatalogTool>, previous: Option<&ToolCatalogSnapshot>) -> (r: Self)
        requires
            tools_wf(tools@),
        ensures
            r@ == new_spec(tools_view(tools@), opt_view(previous)),
            catalog_wf(r@.catalog, r@.present),
            crate::listing_budget::listing_cost(r@.catalog.groups) <= MAX_LISTED_BYTES,
    {
        proof {
            lemma_new_catalog_is_wf(tools_view(tools@), opt_view(previous));
            crate::listing_budget::lemma_new_listing_within_budget(tools_view(tools@), opt_view(previous));
        }
        let all = build_groups(&tools);
        let es = flat_indices(&all);
        let chosen = select_entries(&all, &es, previous);
        let groups = listed_groups_exec(&all, &chosen);
        let n_chosen = count_chosen(&chosen);
        let omitted = es.len() - n_chosen;
        let mut present: Vec<Vec<char>> = Vec::new();
        let mut i: usize = 0;
        while i < tools.len()
            invariant
                i <= tools.len(),
                sv(present@) == tools_view(tools@).take(i as int).map_values(|t: ToolM| t.global),
            decreases tools.len() - i,
        {
            let ghost before = present@;
            present.push(chars_of(tools[i].global_name.as_str()));
            proof {
                let f = |t: ToolM| t.global;
                assert(sv(present@) =~= sv(before).push(tools@[i as int]@.global));
                assert(tools_view(tools@).take(i + 1).map_values(f) =~= tools_view(tools@).take(
                    i as int,
                ).map_values(f).push(f(tools_view(tools@)[i as int])));
            }
            i = i + 1;
        }
        assert(tools_view(tools@).take(tools.len() as int) =~= tools_view(tools@));
        let (remembered, unlisted) = match previous {
            Some(prev) => {
                let remembered = remembered_exec(prev, &groups);
                let listed_before = triples_exec(&prev.groups);
                let mut cands: Vec<(Vec<char>, Vec<char>)> = Vec::new();
                let mut i: usize = 0;
                while i < listed_before.len()
                    invariant
                        i <= listed_before.len(),
                        ev(cands@) == tv(listed_before@).take(i as int).map_values(
                            |t: (Seq<char>, Seq<char>, Seq<char>)| (t.0, t.1),
                        ),
                    decreases listed_before.len() - i,
                {
                    let ghost old_c = cands@;
                    cands.push((clone_chars(&listed_before[i].0), clone_chars(&listed_before[i].1)));
                    proof {
                        let f = |t: (Seq<char>, Seq<char>, Seq<char>)| (t.0, t.1);
                        assert(ev(cands@) =~= ev(old_c).push(f(tv(listed_before@)[i as int])));
                        assert(tv(listed_before@).take(i + 1).map_values(f) =~= tv(listed_before@).take(
                            i as int,
                        ).map_values(f).push(f(tv(listed_before@)[i as int])));
                    }
                    i = i + 1;
                }
                assert(tv(listed_before@).take(listed_before.len() as int) =~= tv(listed_before@));
                let more = unlisted_pairs_exec(&prev.unlisted);
                let ghost first = ev(cands@);
                let mut j: usize = 0;
                while j < more.len()
                    invariant
                        j <= more.len(),
                        ev(cands@) == first + ev(more@).take(j as int),
                    decreases more.len() - j,
                {
                    let ghost old_c = cands@;
                    cands.push((clone_chars(&more[j].0), clone_chars(&more[j].1)));
                    proof {
                        assert(ev(cands@) =~= ev(old_c).push(ev(more@)[j as int]));
                    }
                    j = j + 1;
                    assert(ev(cands@) =~= first + ev(more@).take(j as int));
                }
                assert(ev(more@).take(more.len() as int) =~= ev(more@));
                let unlisted = unlisted_exec(&cands, &present, &groups);
                (remembered, unlisted)
            },
            None => {
                let r: Vec<(Vec<char>, Vec<char>)> = Vec::new();
                let u: Vec<(Vec<char>, NameList)> = Vec::new();
                assert(ev(r@) =~= seq![]);
                assert(ev(u@) =~= seq![]);
                (r, u)
            },
        };
        ToolCatalogState {
            catalog: ToolCatalogSnapshot { groups, omitted, remembered, unlisted },
            present,
            rendered_whole: false,
            had_previous: previous.is_some(),
        }
    }

    /// What the model sees of the catalog now. After a whole listing,
    /// history holds only what is listed, so nothing is remembered or kept
    /// unlisted.
    pub fn snapshot(&self) -> (r: ToolCatalogSnapshot)
        ensures
            r@ == snapshot_spec(self@),
            catalog_wf(self@.catalog, self@.present) ==> catalog_wf(r@, self@.present),
    {
        let groups = clone_groups(&self.catalog.groups);
        if self.rendered_whole {
            let remembered: Vec<(Vec<char>, Vec<char>)> = Vec::new();
            let unlisted: Vec<(Vec<char>, NameList)> = Vec::new();
            assert(ev(remembered@) =~= seq![]);
            assert(ev(unlisted@) =~= seq![]);
            ToolCatalogSnapshot { groups, omitted: self.catalog.omitted, remembered, unlisted }
        } else {
            ToolCatalogSnapshot {
                groups,
                omitted: self.catalog.omitted,
                remembered: clone_pairs(&self.catalog.remembered),
                unlisted: clone_unlisted(&self.catalog.unlisted),
            }
        }
    }

    /// Whether this catalog is worth keeping as the baseline for the next
    /// step.
    pub fn should_persist(&self) -> (r: bool)
        ensures
            r == should_persist_spec(self@),
    {
        self.catalog.groups.len() > 0 || self.catalog.omitted > 0 || (self.had_previous
            && !self.rendered_whole)
    }
}

pub open spec fn snapshot_spec(st: StateM) -> SnapM {
    if st.rendered_whole {
        SnapM { remembered: seq![], unlisted: seq![], ..st.catalog }
    } else {
        st.catalog
    }
}

pub open spec fn should_persist_spec(st: StateM) -> bool {
    st.catalog.groups.len() > 0 || st.catalog.omitted > 0 || (st.had_previous && !st.rendered_whole)
}

fn clone_groups(v: &Vec<(Vec<char>, CatalogGroup)>) -> (r: Vec<(Vec<char>, CatalogGroup)>)
    ensures
        ev(r@) == ev(v@),
{
    let mut r: Vec<(Vec<char>, CatalogGroup)> = Vec::new();
    let mut i: usize = 0;
    while i < v.len()
        invariant
            i <= v.len(),
            r@.len() == i,
            forall|j: int| 0 <= j < i ==> (#[trigger] r@[j]).0@ == v@[j].0@ && r@[j].1@ == v@[j].1@,
        decreases v.len() - i,
    {
        r.push((clone_chars(&v[i].0), clone_group(&v[i].1)));
        i = i + 1;
    }
    assert(ev(r@) =~= ev(v@));
    r
}

fn clone_unlisted(v: &Vec<(Vec<char>, NameList)>) -> (r: Vec<(Vec<char>, NameList)>)
    ensures
        ev(r@) == ev(v@),
{
    let mut r: Vec<(Vec<char>, NameList)> = Vec::new();
    let mut i: usize = 0;
    while i < v.len()
        invariant
            i <= v.len(),
            r@.len() == i,
            forall|j: int| 0 <= j < i ==> (#[trigger] r@[j]).0@ == v@[j].0@ && r@[j].1@ == v@[j].1@,
        decreases v.len() - i,
    {
        r.push((clone_chars(&v[i].0), NameList { names: clone_names(&v[i].1.names) }));
        i = i + 1;
    }
    assert(ev(r@) =~= ev(v@));
    r
}

} // verus!
