//! The deferred nested tools a code-mode `exec` script can call, as the
//! tool catalog lists them.
//!
//! Deferred tools stay out of the `exec` description so adding or removing
//! them does not change the prompt prefix. The code-mode runtime's naming
//! (the nested-tool check and the normalized global name) is worked out by
//! the caller for each registry entry; what is decided here is which entries
//! are listed, under which name and group.

use vstd::prelude::*;
use crate::text::chars_eq;
use crate::text::chars_of;
use crate::text::has_prefix;
use crate::text::string_of;
use crate::tool_catalog::CatalogTool;
use crate::tool_catalog::ToolM;
use crate::tool_catalog::tools_view;
use crate::tool_catalog::tools_wf;

verus! {

/// What a tool's spec says of its description.
#[derive(Debug, Clone, PartialEq, Eq)]
pub enum SpecDescription {
    /// A function or freeform tool, with its description.
    Plain { description: String },
    /// A namespace: the description of the nested tool of this name, if
    /// the namespace holds one, and the namespace's own description.
    Namespaced { tool: Option<String>, group: String },
    /// Tool search or web search: never listed.
    Unlisted,
}

/// One registry entry, with what the code-mode runtime makes of its name.
#[derive(Debug, Clone, PartialEq, Eq)]
pub struct RegistryEntry {
    /// Whether the tool is exposed as deferred.
    pub deferred: bool,
    /// The tool's namespace, the default one filled in.
    pub namespace: Option<String>,
    pub spec: SpecDescription,
    /// Whether code mode exposes the tool as a nested tool.
    pub nested: bool,
    /// The normalized name on the global `tools` object.
    pub global_name: String,
    /// The normalized `namespace__` prefix of a namespace other than the
    /// default one.
    pub group_prefix: Option<String>,
}

pub struct EntryM {
    pub deferred: bool,
    pub namespace: Option<Seq<char>>,
    /// (description, group description) when the entry can be listed.
    pub descriptions: Option<(Seq<char>, Seq<char>)>,
    pub nested: bool,
    pub global: Seq<char>,
    pub prefix: Option<Seq<char>>,
}

pub open spec fn opt_view(o: Option<String>) -> Option<Seq<char>> {
    match o {
        Some(s) => Some(s@),
        None => None,
    }
}

pub open spec fn descriptions_spec(s: SpecDescription) -> Option<(Seq<char>, Seq<char>)> {
    match s {
        SpecDescription::Plain { description } => Some((description@, seq![])),
        SpecDescription::Namespaced { tool, group } => match tool {
            Some(d) => Some((d@, group@)),
            None => None,
        },
        SpecDescription::Unlisted => None,
    }
}

pub open spec fn entry_view(e: RegistryEntry) -> EntryM {
    EntryM {
        deferred: e.deferred,
        namespace: opt_view(e.namespace),
        descriptions: descriptions_spec(e.spec),
        nested: e.nested,
        global: e.global_name@,
        prefix: opt_view(e.group_prefix),
    }
}

pub open spec fn entries_view(s: Seq<RegistryEntry>) -> Seq<EntryM> {
    s.map_values(|e: RegistryEntry| entry_view(e))
}

/// The group of a listed tool: the prefix of its namespace when its global
/// name starts with it and goes on after it; else none.
pub open spec fn group_of_spec(prefix: Option<Seq<char>>, global: Seq<char>) -> Seq<char> {
    match prefix {
        Some(p) => if global.len() > p.len() && global.take(p.len() as int) == p {
            p
        } else {
            seq![]
        },
        None => seq![],
    }
}

pub open spec fn globals(tools: Seq<ToolM>) -> Seq<Seq<char>> {
    tools.map_values(|t: ToolM| t.global)
}

/// Whether an entry is left out whatever came before it.
pub open spec fn skipped(e: EntryM, excluded: Seq<Seq<char>>) -> bool {
    ||| !e.deferred
    ||| (e.namespace matches Some(n) && excluded.contains(n))
    ||| e.descriptions is None
    ||| !e.nested
}

/// The listed tools, in registry order: deferred, outside the excluded
/// namespaces, with a description, nested in code mode, and the first of
/// their global name.
pub open spec fn catalog_tools_spec(entries: Seq<EntryM>, excluded: Seq<Seq<char>>) -> Seq<ToolM>
    decreases entries.len(),
{
    if entries.len() == 0 {
        seq![]
    } else {
        let tools = catalog_tools_spec(entries.drop_last(), excluded);
        let e = entries.last();
        if skipped(e, excluded) || globals(tools).contains(e.global) {
            tools
        } else {
            let (description, group_description) = e.descriptions->0;
            tools.push(
                ToolM {
                    global: e.global,
                    group: group_of_spec(e.prefix, e.global),
                    description,
                    group_description,
                },
            )
        }
    }
}

fn group_of(prefix: &Option<String>, global: &Vec<char>) -> (r: String)
    ensures
        r@ == group_of_spec(opt_view(*prefix), global@),
{
    match prefix {
        Some(p) => {
            let pc = chars_of(p.as_str());
            if global.len() > pc.len() && has_prefix(global, &pc) {
                string_of(&pc)
            } else {
                String::new()
            }
        },
        None => String::new(),
    }
}

fn excluded_contains(excluded: &Vec<String>, n: &String) -> (r: bool)
    ensures
        r == excluded@.map_values(|x: String| x@).contains(n@),
{
    let mut i: usize = 0;
    while i < excluded.len()
        invariant
            i <= excluded.len(),
            forall|j: int| 0 <= j < i ==> #[trigger] excluded@[j]@ != n@,
        decreases excluded.len() - i,
    {
        if excluded[i] == *n {
            assert(excluded@.map_values(|x: String| x@)[i as int] == n@);
            return true;
        }
        i = i + 1;
    }
    let ghost m = excluded@.map_values(|x: String| x@);
    assert forall|j: int| 0 <= j < m.len() implies #[trigger] m[j] != n@ by {
        assert(m[j] == excluded@[j]@);
    }
    false
}

fn taken(tools: &Vec<CatalogTool>, global: &Vec<char>) -> (r: bool)
    ensures
        r == globals(tools_view(tools@)).contains(global@),
{
    let mut i: usize = 0;
    while i < tools.len()
        invariant
            i <= tools.len(),
            forall|j: int| 0 <= j < i ==> #[trigger] globals(tools_view(tools@))[j] != global@,
        decreases tools.len() - i,
    {
        if chars_eq(&chars_of(tools[i].global_name.as_str()), global) {
            assert(globals(tools_view(tools@))[i as int] == global@);
            return true;
        }
        i = i + 1;
    }
    false
}

/// The deferred tools nested code mode exposes, in registry order,
/// skipping the namespaces excluded from code mode; the runtime keeps the
/// first tool of a global name.
pub fn deferred_code_mode_tools(entries: &Vec<RegistryEntry>, excluded_namespaces: &Vec<String>) -> (r: Vec<CatalogTool>)
    ensures
        tools_view(r@) == catalog_tools_spec(entries_view(entries@), excluded_namespaces@.map_values(|x: String| x@)),
        tools_wf(r@),
{
    let ghost es = entries_view(entries@);
    let ghost ex = excluded_namespaces@.map_values(|x: String| x@);
    let mut tools: Vec<CatalogTool> = Vec::new();
    assert(tools_view(tools@) =~= seq![]);
    let mut i: usize = 0;
    while i < entries.len()
        invariant
            i <= entries.len(),
            es == entries_view(entries@),
            ex == excluded_namespaces@.map_values(|x: String| x@),
            tools_view(tools@) == catalog_tools_spec(es.take(i as int), ex),
            tools_wf(tools@),
        decreases entries.len() - i,
    {
        let e = &entries[i];
        proof {
            assert(es.take(i + 1).drop_last() =~= es.take(i as int));
            assert(es.take(i + 1).last() == entry_view(*e));
        }
        let excluded = match &e.namespace {
            Some(n) => excluded_contains(excluded_namespaces, n),
            None => false,
        };
        let descriptions: Option<(String, String)> = match &e.spec {
            SpecDescription::Plain { description } => Some((description.clone(), String::new())),
            SpecDescription::Namespaced { tool, group } => match tool {
                Some(d) => Some((d.clone(), group.clone())),
                None => None,
            },
            SpecDescription::Unlisted => None,
        };
        let global = chars_of(e.global_name.as_str());
        if e.deferred && !excluded && e.nested {
            match descriptions {
                Some((description, group_description)) => {
                    if !taken(&tools, &global) {
                        let ghost old_t = tools@;
                        let t = CatalogTool {
                            global_name: e.global_name.clone(),
                            group: group_of(&e.group_prefix, &global),
                            description,
                            group_description,
                        };
                        tools.push(t);
                        proof {
                            assert(tools_view(tools@) =~= tools_view(old_t).push(t@));
                            assert(t@.global.take(0) =~= seq![]);
                            assert(t@.group.len() <= t@.global.len() && t@.global.take(t@.group.len() as int) == t@.group);
                            assert forall|a: int| 0 <= a < tools@.len() implies (#[trigger] tools@[a])@.group.len() <= tools@[a]@.global.len()
                                && tools@[a]@.global.take(tools@[a]@.group.len() as int) == tools@[a]@.group by {
                                if a < tools@.len() - 1 {
                                    assert(tools@[a] == old_t[a]);
                                }
                            }
                            assert forall|a: int, b: int| 0 <= a < b < tools@.len() implies (#[trigger] tools@[a])@.global
                                != (#[trigger] tools@[b])@.global by {
                                if b == tools@.len() - 1 {
                                    assert(globals(tools_view(old_t))[a] == tools@[a]@.global);
                                }
                            }
                        }
                    }
                },
                None => {},
            }
        }
        i = i + 1;
    }
    assert(es.take(entries.len() as int) =~= es);
    tools
}

} // verus!
