//! Read path of per-chat memory scopes: a thread with a scope sees the
//! global store and its own scope, addressed as `global/...` and
//! `local/...`, never other scopes.

use vstd::prelude::*;
use crate::text::chars_eq;
use crate::text::chars_of;
use crate::text::concat_chars;
use crate::text::string_of;
use crate::describe::slice_chars;

verus! {

pub const GLOBAL_PREFIX: &'static str = "global";

pub const LOCAL_PREFIX: &'static str = "local";

pub const ROUTE_REASON: &'static str = "must start with `global/` (shared memories) or `local/` (this chat's memories)";

pub const SHARED_DELETE_REASON: &'static str = "is a shared memory; this chat may only delete its own `local/` memories";

pub const SEARCH_BOTH_CURSOR_REASON: &'static str = "is not supported when searching both `global/` and `local/`; search one of them";

/// Errors of a memory backend.
#[derive(Debug, Clone, PartialEq, Eq)]
pub enum MemoriesBackendError {
    NotFound { path: String },
    NotFile { path: String },
    InvalidPath { path: String, reason: String },
    InvalidCursor { cursor: String, reason: String },
    /// Any other failure, by its message.
    Other { message: String },
}

/// An error as plain values.
pub enum ErrM {
    NotFound(Seq<char>),
    NotFile(Seq<char>),
    InvalidPath(Seq<char>, Seq<char>),
    InvalidCursor(Seq<char>, Seq<char>),
    Other(Seq<char>),
}

pub open spec fn err_view(e: MemoriesBackendError) -> ErrM {
    match e {
        MemoriesBackendError::NotFound { path } => ErrM::NotFound(path@),
        MemoriesBackendError::NotFile { path } => ErrM::NotFile(path@),
        MemoriesBackendError::InvalidPath { path, reason } => ErrM::InvalidPath(path@, reason@),
        MemoriesBackendError::InvalidCursor { cursor, reason } => ErrM::InvalidCursor(cursor@, reason@),
        MemoriesBackendError::Other { message } => ErrM::Other(message@),
    }
}

impl MemoriesBackendError {
    pub fn invalid_path(path: &str, reason: &str) -> (r: MemoriesBackendError)
        ensures
            err_view(r) == ErrM::InvalidPath(path@, reason@),
    {
        MemoriesBackendError::InvalidPath { path: path.to_owned(), reason: reason.to_owned() }
    }

    pub fn invalid_cursor(cursor: &str, reason: &str) -> (r: MemoriesBackendError)
        ensures
            err_view(r) == ErrM::InvalidCursor(cursor@, reason@),
    {
        MemoriesBackendError::InvalidCursor { cursor: cursor.to_owned(), reason: reason.to_owned() }
    }
}

/// Where a tool path leads.
#[derive(Debug, Clone, PartialEq, Eq)]
pub enum Route {
    /// The top level, holding the two stores.
    Root,
    /// The shared store, with the path inside it.
    Global(Option<String>),
    /// This chat's store, with the path inside it.
    Local(Option<String>),
}

pub enum RouteM {
    Root,
    Global(Option<Seq<char>>),
    Local(Option<Seq<char>>),
}

pub open spec fn opt_view(o: Option<String>) -> Option<Seq<char>> {
    match o {
        Some(s) => Some(s@),
        None => None,
    }
}

pub open spec fn route_view(r: Route) -> RouteM {
    match r {
        Route::Root => RouteM::Root,
        Route::Global(rest) => RouteM::Global(opt_view(rest)),
        Route::Local(rest) => RouteM::Local(opt_view(rest)),
    }
}

pub open spec fn route_result_view(r: Result<Route, MemoriesBackendError>) -> Result<RouteM, ErrM> {
    match r {
        Ok(route) => Ok(route_view(route)),
        Err(e) => Err(err_view(e)),
    }
}

/// `s` without its leading `./` segments.
pub open spec fn strip_dot_slash(s: Seq<char>) -> Seq<char>
    decreases s.len(),
{
    if s.len() >= 2 && s[0] == '.' && s[1] == '/' {
        strip_dot_slash(s.skip(2))
    } else {
        s
    }
}

pub open spec fn is_sep(c: char) -> bool {
    c == '/' || c == '\\'
}

/// Index of the first separator (`/` or `\`), or the length.
pub open spec fn sep_index(s: Seq<char>) -> int
    decreases s.len(),
{
    if s.len() == 0 {
        0
    } else if is_sep(s[0]) {
        0
    } else {
        1 + sep_index(s.drop_first())
    }
}

pub proof fn lemma_sep_index(s: Seq<char>)
    ensures
        0 <= sep_index(s) <= s.len(),
        sep_index(s) < s.len() ==> is_sep(s[sep_index(s)]),
        forall|j: int| 0 <= j < sep_index(s) ==> !is_sep(#[trigger] s[j]),
    decreases s.len(),
{
    if s.len() > 0 && !is_sep(s[0]) {
        lemma_sep_index(s.drop_first());
        assert forall|j: int| 0 <= j < sep_index(s) implies !is_sep(#[trigger] s[j]) by {
            if j > 0 {
                assert(s[j] == s.drop_first()[j - 1]);
            }
        }
    }
}

/// The route of a tool path: no path, an empty one or `.` (after leading
/// `./` segments) is the top level; otherwise the first segment must name a
/// store, and what follows its separator (if anything) is the path inside.
pub open spec fn route_spec(path: Option<Seq<char>>) -> Result<RouteM, ErrM> {
    match path {
        None => Ok(RouteM::Root),
        Some(p) => {
            let t = strip_dot_slash(p);
            if t.len() == 0 || t == seq!['.'] {
                Ok(RouteM::Root)
            } else {
                let i = sep_index(t);
                let rest = if i + 1 < t.len() { Some(t.skip(i + 1)) } else { None };
                if t.take(i) == GLOBAL_PREFIX@ {
                    Ok(RouteM::Global(rest))
                } else if t.take(i) == LOCAL_PREFIX@ {
                    Ok(RouteM::Local(rest))
                } else {
                    Err(ErrM::InvalidPath(p, ROUTE_REASON@))
                }
            }
        },
    }
}

pub open spec fn opt_str(path: Option<&str>) -> Option<Seq<char>> {
    match path {
        Some(p) => Some(p@),
        None => None,
    }
}

/// Routes a tool path to one of the two stores.
pub fn route(path: Option<&str>) -> (r: Result<Route, MemoriesBackendError>)
    ensures
        route_result_view(r) == route_spec(opt_str(path)),
{
    let p = match path {
        None => {
            return Ok(Route::Root);
        },
        Some(p) => p,
    };
    let chars = chars_of(p);
    let mut start: usize = 0;
    assert(chars@.skip(0) =~= chars@);
    while start < chars.len() && chars.len() - start >= 2 && chars[start] == '.' && chars[start + 1] == '/'
        invariant
            start <= chars.len(),
            strip_dot_slash(chars@) == strip_dot_slash(chars@.skip(start as int)),
        decreases chars.len() - start,
    {
        assert(chars@.skip(start as int).skip(2) =~= chars@.skip(start + 2));
        start = start + 2;
    }
    let t = slice_chars(&chars, start, chars.len());
    assert(t@ =~= chars@.skip(start as int));
    assert(strip_dot_slash(t@) == t@);
    if t.len() == 0 || (t.len() == 1 && t[0] == '.') {
        assert(t.len() == 1 ==> t@ =~= seq!['.']);
        return Ok(Route::Root);
    }
    assert(!(t@ =~= seq!['.']) || t.len() != 1);
    let mut i: usize = 0;
    assert(t@.skip(0) =~= t@);
    while i < t.len() && t[i] != '/' && t[i] != '\\'
        invariant
            i <= t.len(),
            sep_index(t@) == i + sep_index(t@.skip(i as int)),
        decreases t.len() - i,
    {
        assert(t@.skip(i as int).drop_first() =~= t@.skip(i + 1));
        i = i + 1;
    }
    proof {
        if i < t.len() {
            assert(t@.skip(i as int)[0] == t@[i as int]);
        }
    }
    let head = slice_chars(&t, 0, i);
    assert(head@ =~= t@.take(i as int));
    let rest: Option<String> = if i < t.len() && t.len() - i > 1 {
        let r = slice_chars(&t, i + 1, t.len());
        assert(r@ =~= t@.skip(i + 1));
        Some(string_of(&r))
    } else {
        None
    };
    if chars_eq(&head, &chars_of(GLOBAL_PREFIX)) {
        Ok(Route::Global(rest))
    } else if chars_eq(&head, &chars_of(LOCAL_PREFIX)) {
        Ok(Route::Local(rest))
    } else {
        Err(MemoriesBackendError::invalid_path(p, ROUTE_REASON))
    }
}

/// Whether a tool path addresses the shared (global) memory store.
pub fn addresses_global_store(path: &str) -> (r: bool)
    ensures
        r == (route_spec(Some(path@)) matches Ok(RouteM::Global(_))),
{
    match route(Some(path)) {
        Ok(Route::Global(_)) => true,
        _ => false,
    }
}

pub open spec fn slash_char(c: char) -> char {
    if c == '\\' {
        '/'
    } else {
        c
    }
}

/// `s` with every `\` turned into `/`.
pub open spec fn slashes(s: Seq<char>) -> Seq<char> {
    s.map_values(|c: char| slash_char(c))
}

/// A store path as the tools show it: under the store's prefix, with `/`
/// separators.
pub open spec fn prefixed_spec(prefix: Seq<char>, path: Seq<char>) -> Seq<char> {
    if path.len() == 0 {
        prefix
    } else {
        prefix + seq!['/'] + slashes(path)
    }
}

fn prefixed_chars(prefix: &str, path: &Vec<char>) -> (r: Vec<char>)
    ensures
        r@ == prefixed_spec(prefix@, path@),
{
    let mut r = chars_of(prefix);
    if path.len() == 0 {
        return r;
    }
    r.push('/');
    let ghost start = r@;
    let mut i: usize = 0;
    while i < path.len()
        invariant
            i <= path.len(),
            r@ == start + slashes(path@.take(i as int)),
        decreases path.len() - i,
    {
        let c = path[i];
        r.push(if c == '\\' { '/' } else { c });
        i = i + 1;
        assert(r@ =~= start + slashes(path@.take(i as int)));
    }
    assert(path@.take(path@.len() as int) =~= path@);
    r
}

pub fn prefixed(prefix: &str, path: &str) -> (r: String)
    ensures
        r@ == prefixed_spec(prefix@, path@),
{
    string_of(&prefixed_chars(prefix, &chars_of(path)))
}

pub open spec fn prefix_error_spec(prefix: Seq<char>, e: ErrM) -> ErrM {
    match e {
        ErrM::NotFound(p) => ErrM::NotFound(prefixed_spec(prefix, p)),
        ErrM::NotFile(p) => ErrM::NotFile(prefixed_spec(prefix, p)),
        ErrM::InvalidPath(p, reason) => ErrM::InvalidPath(prefixed_spec(prefix, p), reason),
        other => other,
    }
}

/// An error of one store with its path shown under the store's prefix.
pub fn prefix_error(prefix: &str, err: MemoriesBackendError) -> (r: MemoriesBackendError)
    ensures
        err_view(r) == prefix_error_spec(prefix@, err_view(err)),
{
    match err {
        MemoriesBackendError::NotFound { path } => MemoriesBackendError::NotFound { path: prefixed(prefix, path.as_str()) },
        MemoriesBackendError::NotFile { path } => MemoriesBackendError::NotFile { path: prefixed(prefix, path.as_str()) },
        MemoriesBackendError::InvalidPath { path, reason } => MemoriesBackendError::InvalidPath {
            path: prefixed(prefix, path.as_str()),
            reason,
        },
        other => other,
    }
}

/// One of the two stores of a scoped thread.
#[derive(Debug, Clone, Copy, PartialEq, Eq, Structural)]
pub enum Store {
    Global,
    Local,
}

/// The stores of a scoped thread, by their roots.
pub struct ScopedMemoriesBackend {
    pub global_root: String,
    pub local_root: String,
}

pub open spec fn pick_spec(route: RouteM) -> Option<(Seq<char>, Store, Option<Seq<char>>)> {
    match route {
        RouteM::Root => None,
        RouteM::Global(rest) => Some((GLOBAL_PREFIX@, Store::Global, rest)),
        RouteM::Local(rest) => Some((LOCAL_PREFIX@, Store::Local, rest)),
    }
}

impl ScopedMemoriesBackend {
    /// The prefix, store and store-relative path of a routed path; `None`
    /// for the top level.
    pub fn pick(&self, route: &Route) -> (r: Option<(&'static str, Store, Option<String>)>)
        ensures
            match r {
                Some((prefix, store, rest)) => pick_spec(route_view(*route)) == Some((prefix@, store, opt_view(rest))),
                None => pick_spec(route_view(*route)) is None,
            },
    {
        match route {
            Route::Root => None,
            Route::Global(rest) => Some((GLOBAL_PREFIX, Store::Global, clone_opt(rest))),
            Route::Local(rest) => Some((LOCAL_PREFIX, Store::Local, clone_opt(rest))),
        }
    }

    /// The root of one store.
    pub fn root(&self, store: Store) -> (r: &str)
        ensures
            r@ == (match store {
                Store::Global => self.global_root@,
                Store::Local => self.local_root@,
            }),
    {
        match store {
            Store::Global => self.global_root.as_str(),
            Store::Local => self.local_root.as_str(),
        }
    }
}

fn clone_opt(o: &Option<String>) -> (r: Option<String>)
    ensures
        opt_view(r) == opt_view(*o),
{
    match o {
        Some(s) => Some(s.clone()),
        None => None,
    }
}

pub open spec fn file_target_spec(path: Seq<char>) -> Result<(Seq<char>, Store, Seq<char>), ErrM> {
    match route_spec(Some(path)) {
        Err(e) => Err(e),
        Ok(r) => match pick_spec(r) {
            Some((prefix, store, Some(rest))) => Ok((prefix, store, rest)),
            _ => Err(ErrM::NotFile(path)),
        },
    }
}

/// The store and store-relative path of a file to read or delete: the path
/// must name a store and a path inside it.
pub fn file_target(path: &str) -> (r: Result<(&'static str, Store, String), MemoriesBackendError>)
    ensures
        match r {
            Ok((prefix, store, rest)) => file_target_spec(path@) == Ok::<(Seq<char>, Store, Seq<char>), ErrM>((prefix@, store, rest@)),
            Err(e) => file_target_spec(path@) == Err::<(Seq<char>, Store, Seq<char>), ErrM>(err_view(e)),
        },
{
    let backend = ScopedMemoriesBackend { global_root: String::new(), local_root: String::new() };
    match route(Some(path)) {
        Err(e) => Err(e),
        Ok(r) => match backend.pick(&r) {
            Some((prefix, store, Some(rest))) => Ok((prefix, store, rest)),
            _ => Err(MemoriesBackendError::NotFile { path: path.to_owned() }),
        },
    }
}

/// Whether a deletion may go ahead: always when the thread may delete
/// shared memories, else only outside the shared store.
pub fn check_delete(may_delete_global: bool, path: &str) -> (r: Result<(), MemoriesBackendError>)
    ensures
        r is Ok <==> (may_delete_global || !(route_spec(Some(path@)) matches Ok(RouteM::Global(_)))),
        r matches Err(e) ==> err_view(e) == ErrM::InvalidPath(path@, SHARED_DELETE_REASON@),
{
    if may_delete_global || !addresses_global_store(path) {
        Ok(())
    } else {
        Err(MemoriesBackendError::invalid_path(path, SHARED_DELETE_REASON))
    }
}

/// Kind of a listed entry.
#[derive(Debug, Clone, Copy, PartialEq, Eq, Structural)]
pub enum MemoryEntryType {
    File,
    Directory,
}

#[derive(Debug, Clone, PartialEq, Eq)]
pub struct MemoryEntry {
    pub path: String,
    pub entry_type: MemoryEntryType,
}

pub open spec fn entries_view(s: Seq<MemoryEntry>) -> Seq<(Seq<char>, MemoryEntryType)> {
    s.map_values(|e: MemoryEntry| (e.path@, e.entry_type))
}

/// The top level of a scoped thread: the two stores, as directories.
pub fn root_entries() -> (r: Vec<MemoryEntry>)
    ensures
        entries_view(r@) == seq![
            (GLOBAL_PREFIX@, MemoryEntryType::Directory),
            (LOCAL_PREFIX@, MemoryEntryType::Directory),
        ],
{
    let r = vec![
        MemoryEntry { path: string_of(&chars_of(GLOBAL_PREFIX)), entry_type: MemoryEntryType::Directory },
        MemoryEntry { path: string_of(&chars_of(LOCAL_PREFIX)), entry_type: MemoryEntryType::Directory },
    ];
    assert(entries_view(r@) =~= seq![
        (GLOBAL_PREFIX@, MemoryEntryType::Directory),
        (LOCAL_PREFIX@, MemoryEntryType::Directory),
    ]);
    r
}

/// Entries of one store shown under its prefix.
pub fn prefix_entries(prefix: &str, entries: Vec<MemoryEntry>) -> (r: Vec<MemoryEntry>)
    ensures
        entries_view(r@) == entries_view(entries@).map_values(
            |e: (Seq<char>, MemoryEntryType)| (prefixed_spec(prefix@, e.0), e.1),
        ),
{
    let mut r: Vec<MemoryEntry> = Vec::new();
    let mut i: usize = 0;
    while i < entries.len()
        invariant
            i <= entries.len(),
            entries_view(r@) == entries_view(entries@).take(i as int).map_values(
                |e: (Seq<char>, MemoryEntryType)| (prefixed_spec(prefix@, e.0), e.1),
            ),
        decreases entries.len() - i,
    {
        let ghost old_r = r@;
        let ghost f = |e: (Seq<char>, MemoryEntryType)| (prefixed_spec(prefix@, e.0), e.1);
        let e = MemoryEntry { path: prefixed(prefix, entries[i].path.as_str()), entry_type: entries[i].entry_type };
        r.push(e);
        assert(entries_view(r@) =~= entries_view(old_r).push(f(entries_view(entries@)[i as int])));
        assert(entries_view(entries@).take(i + 1).map_values(f) =~= entries_view(entries@).take(i as int).map_values(f).push(f(entries_view(entries@)[i as int])));
        i = i + 1;
    }
    assert(entries_view(entries@).take(entries.len() as int) =~= entries_view(entries@));
    r
}

/// How a search matches its queries.
#[derive(Debug, Clone, Copy, PartialEq, Eq, Structural)]
pub enum SearchMatchMode {
    Any,
    All,
}

/// One search hit.
#[derive(Debug, Clone, PartialEq, Eq)]
pub struct SearchMatch {
    pub path: String,
    pub content: String,
}

pub open spec fn matches_view(s: Seq<SearchMatch>) -> Seq<(Seq<char>, Seq<char>)> {
    s.map_values(|m: SearchMatch| (m.path@, m.content@))
}

pub struct SearchMemoriesResponse {
    pub queries: Vec<String>,
    pub match_mode: SearchMatchMode,
    pub path: Option<String>,
    pub matches: Vec<SearchMatch>,
    pub next_cursor: Option<String>,
    pub truncated: bool,
}

/// What a search of both stores has gathered so far.
pub struct SearchAcc {
    pub matches: Vec<SearchMatch>,
    pub truncated: bool,
    /// Queries and match mode of the first store that answered.
    pub head: Option<(Vec<String>, SearchMatchMode)>,
}

pub open spec fn strs_view(s: Seq<String>) -> Seq<Seq<char>> {
    s.map_values(|x: String| x@)
}

pub struct AccM {
    pub matches: Seq<(Seq<char>, Seq<char>)>,
    pub truncated: bool,
    pub head: Option<(Seq<Seq<char>>, SearchMatchMode)>,
}

pub open spec fn acc_view(a: SearchAcc) -> AccM {
    AccM {
        matches: matches_view(a.matches@),
        truncated: a.truncated,
        head: match a.head {
            Some((q, m)) => Some((strs_view(q@), m)),
            None => None,
        },
    }
}

pub struct ResponseM {
    pub queries: Seq<Seq<char>>,
    pub match_mode: SearchMatchMode,
    pub path: Option<Seq<char>>,
    pub matches: Seq<(Seq<char>, Seq<char>)>,
    pub next_cursor: Option<Seq<char>>,
    pub truncated: bool,
}

pub open spec fn response_view(r: SearchMemoriesResponse) -> ResponseM {
    ResponseM {
        queries: strs_view(r.queries@),
        match_mode: r.match_mode,
        path: opt_view(r.path),
        matches: matches_view(r.matches@),
        next_cursor: opt_view(r.next_cursor),
        truncated: r.truncated,
    }
}

pub open spec fn prefix_matches_spec(prefix: Seq<char>, m: Seq<(Seq<char>, Seq<char>)>) -> Seq<(Seq<char>, Seq<char>)> {
    m.map_values(|x: (Seq<char>, Seq<char>)| (prefixed_spec(prefix, x.0), x.1))
}

/// Search hits of one store shown under its prefix.
pub fn prefix_matches(prefix: &str, matches: Vec<SearchMatch>) -> (r: Vec<SearchMatch>)
    ensures
        matches_view(r@) == prefix_matches_spec(prefix@, matches_view(matches@)),
{
    let mut r: Vec<SearchMatch> = Vec::new();
    let mut i: usize = 0;
    while i < matches.len()
        invariant
            i <= matches.len(),
            matches_view(r@) == prefix_matches_spec(prefix@, matches_view(matches@).take(i as int)),
        decreases matches.len() - i,
    {
        let ghost old_r = r@;
        let ghost f = |x: (Seq<char>, Seq<char>)| (prefixed_spec(prefix@, x.0), x.1);
        let m = SearchMatch { path: prefixed(prefix, matches[i].path.as_str()), content: matches[i].content.clone() };
        r.push(m);
        assert(matches_view(r@) =~= matches_view(old_r).push(f(matches_view(matches@)[i as int])));
        assert(matches_view(matches@).take(i + 1).map_values(f) =~= matches_view(matches@).take(i as int).map_values(f).push(f(matches_view(matches@)[i as int])));
        i = i + 1;
    }
    assert(matches_view(matches@).take(matches.len() as int) =~= matches_view(matches@));
    r
}

/// Starts a search of both stores: a cursor cannot span them.
pub fn start_search_both(cursor: Option<&str>) -> (r: Result<SearchAcc, MemoriesBackendError>)
    ensures
        cursor is None <==> r is Ok,
        r matches Ok(a) ==> acc_view(a) == (AccM { matches: seq![], truncated: false, head: None }),
        r matches Err(e) ==> (cursor matches Some(c) && err_view(e) == ErrM::InvalidCursor(c@, SEARCH_BOTH_CURSOR_REASON@)),
{
    match cursor {
        Some(c) => Err(MemoriesBackendError::invalid_cursor(c, SEARCH_BOTH_CURSOR_REASON)),
        None => {
            let a = SearchAcc { matches: Vec::new(), truncated: false, head: None };
            assert(matches_view(a.matches@) =~= seq![]);
            Ok(a)
        },
    }
}

pub open spec fn absorb_spec(acc: AccM, prefix: Seq<char>, result: Result<ResponseM, ErrM>) -> Result<AccM, ErrM> {
    match result {
        Ok(r) => Ok(AccM {
            matches: acc.matches + prefix_matches_spec(prefix, r.matches),
            truncated: acc.truncated || r.truncated,
            head: if acc.head is Some { acc.head } else { Some((r.queries, r.match_mode)) },
        }),
        Err(ErrM::NotFound(_)) => Ok(acc),
        Err(e) => Err(prefix_error_spec(prefix, e)),
    }
}

pub open spec fn result_view(r: Result<SearchMemoriesResponse, MemoriesBackendError>) -> Result<ResponseM, ErrM> {
    match r {
        Ok(x) => Ok(response_view(x)),
        Err(e) => Err(err_view(e)),
    }
}

/// Takes in the answer of one store: its hits under its prefix; a store
/// that was never written (not found) adds nothing; any other error ends
/// the search.
pub fn absorb_search(acc: SearchAcc, prefix: &str, result: Result<SearchMemoriesResponse, MemoriesBackendError>) -> (r: Result<SearchAcc, MemoriesBackendError>)
    ensures
        match r {
            Ok(a) => absorb_spec(acc_view(acc), prefix@, result_view(result)) == Ok::<AccM, ErrM>(acc_view(a)),
            Err(e) => absorb_spec(acc_view(acc), prefix@, result_view(result)) == Err::<AccM, ErrM>(err_view(e)),
        },
        (acc.truncated || (result matches Ok(x) && x.truncated)) ==> (r matches Ok(a) ==> a.truncated),
        result is Ok ==> r is Ok,
{
    proof {
        lemma_search_keeps_truncation(acc_view(acc), prefix@, result_view(result), seq![], SearchMatchMode::Any, 0);
    }
    match result {
        Ok(resp) => {
            let SearchAcc { mut matches, truncated, head } = acc;
            let ghost before = matches_view(matches@);
            let more = prefix_matches(prefix, resp.matches);
            let mut i: usize = 0;
            while i < more.len()
                invariant
                    i <= more.len(),
                    matches_view(matches@) == before + matches_view(more@).take(i as int),
                decreases more.len() - i,
            {
                let ghost old_m = matches@;
                let m = SearchMatch { path: more[i].path.clone(), content: more[i].content.clone() };
                matches.push(m);
                assert(matches_view(matches@) =~= matches_view(old_m).push(matches_view(more@)[i as int]));
                i = i + 1;
                assert(matches_view(matches@) =~= before + matches_view(more@).take(i as int));
            }
            assert(matches_view(more@).take(more.len() as int) =~= matches_view(more@));
            let head = match head {
                Some(h) => Some(h),
                None => Some((resp.queries, resp.match_mode)),
            };
            Ok(SearchAcc { matches, truncated: truncated || resp.truncated, head })
        },
        Err(MemoriesBackendError::NotFound { path }) => Ok(acc),
        Err(e) => Err(prefix_error(prefix, e)),
    }
}

pub open spec fn finish_spec(acc: AccM, queries: Seq<Seq<char>>, match_mode: SearchMatchMode, max_results: nat) -> ResponseM {
    let cut = acc.matches.len() > max_results;
    ResponseM {
        queries: match acc.head {
            Some((q, _)) => q,
            None => queries,
        },
        match_mode: match acc.head {
            Some((_, m)) => m,
            None => match_mode,
        },
        path: None,
        matches: if cut { acc.matches.take(max_results as int) } else { acc.matches },
        next_cursor: None,
        truncated: acc.truncated || cut,
    }
}

/// The answer of a search of both stores: at most `max_results` hits
/// (truncated when more were found), with the queries and match mode of the
/// first store that answered, else those asked for.
pub fn finish_search_both(acc: SearchAcc, queries: Vec<String>, match_mode: SearchMatchMode, max_results: usize) -> (r: SearchMemoriesResponse)
    ensures
        response_view(r) == finish_spec(acc_view(acc), strs_view(queries@), match_mode, max_results as nat),
        acc.truncated || acc.matches@.len() > max_results ==> r.truncated,
        r.matches@.len() <= max_results,
{
    proof {
        lemma_search_keeps_truncation(acc_view(acc), seq![], Err(ErrM::Other(seq![])), strs_view(queries@), match_mode, max_results as nat);
    }
    let SearchAcc { mut matches, mut truncated, head } = acc;
    if matches.len() > max_results {
        matches.truncate(max_results);
        truncated = true;
    }
    let (queries, match_mode) = match head {
        Some(h) => h,
        None => (queries, match_mode),
    };
    let r = SearchMemoriesResponse { queries, match_mode, path: None, matches, next_cursor: None, truncated };
    assert(matches_view(r.matches@) =~= finish_spec(acc_view(acc), strs_view(queries@), match_mode, max_results as nat).matches);
    r
}

/// A truncation is never lost in a search of both stores: absorbing a
/// store's answer keeps the search truncated if it was, and makes it
/// truncated if that store's answer was; finishing keeps it, and also
/// truncates when more hits were found than may be returned.
pub proof fn lemma_search_keeps_truncation(
    acc: AccM,
    prefix: Seq<char>,
    result: Result<ResponseM, ErrM>,
    queries: Seq<Seq<char>>,
    match_mode: SearchMatchMode,
    max_results: nat,
)
    ensures
        acc.truncated && absorb_spec(acc, prefix, result) is Ok ==> absorb_spec(acc, prefix, result)->Ok_0.truncated,
        result matches Ok(r) && r.truncated ==> (absorb_spec(acc, prefix, result) matches Ok(a) && a.truncated),
        result matches Ok(r) ==> (absorb_spec(acc, prefix, result) matches Ok(a) && a.matches.len() == acc.matches.len()
            + r.matches.len()),
        acc.truncated ==> finish_spec(acc, queries, match_mode, max_results).truncated,
        acc.matches.len() > max_results ==> finish_spec(acc, queries, match_mode, max_results).truncated,
        finish_spec(acc, queries, match_mode, max_results).matches.len() <= max_results,
        !acc.truncated && acc.matches.len() <= max_results ==> (!finish_spec(acc, queries, match_mode, max_results).truncated
            && finish_spec(acc, queries, match_mode, max_results).matches == acc.matches),
{
}

/// Memory permission of a curating action: fixed by the thread's config, or
/// up to a scope granted to the current turn's sender.
#[derive(Debug, Clone, Copy, PartialEq, Eq)]
pub enum Permission {
    Fixed(bool),
    Scope(&'static str),
}

/// Scope allowing notes in, and deletions from, the shared store.
pub const WRITE_GLOBAL_SCOPE: &'static str = "memory.write_global";

/// Scope allowing memories to be deleted.
pub const DELETE_SCOPE: &'static str = "memory.delete";

/// Whether `p` allows the action for a turn granted `scopes`.
pub open spec fn permission_allows(p: Permission, scopes: Seq<String>) -> bool {
    match p {
        Permission::Fixed(b) => b,
        Permission::Scope(s) => exists|i: int| 0 <= i < scopes.len() && #[trigger] scopes[i]@ == s@,
    }
}

/// Why a shared note is refused.
pub const SHARED_NOTE_REFUSED: &'static str = "this sender may not write shared memories";

/// Why a deletion is refused.
pub const DELETE_REFUSED: &'static str = "this sender may not delete memories";

/// Where a note of `scope` goes: the chat's own store, or the shared store
/// when `global` allows it for this turn.
pub fn check_note(global: &Permission, scope: NoteScope, scopes: &Vec<String>) -> (r: Result<Store, MemoriesBackendError>)
    ensures
        scope == NoteScope::Local ==> r matches Ok(Store::Local),
        scope == NoteScope::Global ==> (r is Ok <==> permission_allows(*global, scopes@)),
        scope == NoteScope::Global && r is Ok ==> r matches Ok(Store::Global),
        r matches Err(e) ==> err_view(e) == ErrM::Other(SHARED_NOTE_REFUSED@),
{
    match scope {
        NoteScope::Local => Ok(Store::Local),
        NoteScope::Global => if global.allowed(scopes) {
            Ok(Store::Global)
        } else {
            Err(MemoriesBackendError::Other { message: SHARED_NOTE_REFUSED.to_owned() })
        },
    }
}

/// Whether `delete_memory` may delete `path` for this turn: deleting needs
/// `permission`; a shared memory (every memory of a thread with only the
/// shared store, else a `global/` path) needs `global` too.
pub fn check_turn_delete(
    permission: &Permission,
    global: &Permission,
    single_store: bool,
    path: &str,
    scopes: &Vec<String>,
) -> (r: Result<(), MemoriesBackendError>)
    ensures
        r is Ok <==> (permission_allows(*permission, scopes@) && (permission_allows(*global, scopes@) || (!single_store
            && !(route_spec(Some(path@)) matches Ok(RouteM::Global(_)))))),
        r matches Err(e) ==> (if permission_allows(*permission, scopes@) {
            err_view(e) == ErrM::InvalidPath(path@, SHARED_DELETE_REASON@)
        } else {
            err_view(e) == ErrM::Other(DELETE_REFUSED@)
        }),
{
    if !permission.allowed(scopes) {
        return Err(MemoriesBackendError::Other { message: DELETE_REFUSED.to_owned() });
    }
    let global_ok = global.allowed(scopes);
    if single_store && !global_ok {
        return Err(MemoriesBackendError::invalid_path(path, SHARED_DELETE_REASON));
    }
    check_delete(global_ok, path)
}

impl Permission {
    /// Whether the action is allowed, given the scopes granted to the turn.
    pub fn allowed(&self, scopes: &Vec<String>) -> (r: bool)
        ensures
            r == permission_allows(*self, scopes@),
    {
        match self {
            Permission::Fixed(b) => *b,
            Permission::Scope(scope) => {
                let s: &'static str = *scope;
                let want = chars_of(s);
                let mut i: usize = 0;
                while i < scopes.len()
                    invariant
                        i <= scopes.len(),
                        want@ == s@,
                        *self == Permission::Scope(s),
                        forall|j: int| 0 <= j < i ==> #[trigger] scopes@[j]@ != s@,
                    decreases scopes.len() - i,
                {
                    if chars_eq(&chars_of(scopes[i].as_str()), &want) {
                        assert(scopes@[i as int]@ == s@);
                        return true;
                    }
                    i = i + 1;
                }
                false
            },
        }
    }
}


/// Where an ad-hoc note goes: this chat only (the default), or every chat.
#[derive(Debug, Clone, Copy, PartialEq, Eq, Structural)]
pub enum NoteScope {
    Local,
    Global,
}

impl NoteScope {
    /// A note that names no scope is private to the chat.
    pub fn unspecified() -> (r: NoteScope)
        ensures
            r == NoteScope::Local,
    {
        NoteScope::Local
    }

    /// The store a note of this scope is written to.
    pub fn store(self) -> (r: Store)
        ensures
            self == NoteScope::Local ==> r == Store::Local,
            self == NoteScope::Global ==> r == Store::Global,
    {
        match self {
            NoteScope::Local => Store::Local,
            NoteScope::Global => Store::Global,
        }
    }
}

proof fn lemma_store_path_routes(prefix: Seq<char>, p: Seq<char>)
    requires
        prefix.len() > 0,
        prefix[0] != '.',
        forall|j: int| 0 <= j < prefix.len() ==> !is_sep(#[trigger] prefix[j]),
    ensures
        strip_dot_slash(prefixed_spec(prefix, p)) == prefixed_spec(prefix, p),
        prefixed_spec(prefix, p) != seq!['.'],
        prefixed_spec(prefix, p).len() > 0,
        sep_index(prefixed_spec(prefix, p)) == prefix.len(),
        prefixed_spec(prefix, p).take(prefix.len() as int) == prefix,
        prefix.len() + 1 < prefixed_spec(prefix, p).len() <==> p.len() > 0,
        p.len() > 0 ==> prefixed_spec(prefix, p).skip(prefix.len() as int + 1) == slashes(p),
{
    let t = prefixed_spec(prefix, p);
    assert(t[0] == prefix[0]);
    assert(t != seq!['.']);
    lemma_sep_index(t);
    assert forall|j: int| 0 <= j < prefix.len() implies !is_sep(#[trigger] t[j]) by {
        assert(t[j] == prefix[j]);
    }
    if p.len() > 0 {
        assert(t[prefix.len() as int] == '/');
        assert(t.skip(prefix.len() as int + 1) =~= slashes(p));
    }
    assert(t.take(prefix.len() as int) =~= prefix);
}

/// A path a store reports, shown under the store's prefix, routes back to
/// that store and to the same path inside it (with `/` separators): what the
/// scoped tools list or find can be read back through them.
pub proof fn lemma_prefixed_paths_route_back(p: Seq<char>)
    ensures
        route_spec(Some(prefixed_spec(GLOBAL_PREFIX@, p))) == Ok::<RouteM, ErrM>(
            RouteM::Global(if p.len() == 0 { None } else { Some(slashes(p)) }),
        ),
        route_spec(Some(prefixed_spec(LOCAL_PREFIX@, p))) == Ok::<RouteM, ErrM>(
            RouteM::Local(if p.len() == 0 { None } else { Some(slashes(p)) }),
        ),
{
    reveal_strlit("global");
    reveal_strlit("local");
    assert(GLOBAL_PREFIX@ =~= seq!['g', 'l', 'o', 'b', 'a', 'l']);
    assert(LOCAL_PREFIX@ =~= seq!['l', 'o', 'c', 'a', 'l']);
    lemma_store_path_routes(GLOBAL_PREFIX@, p);
    lemma_store_path_routes(LOCAL_PREFIX@, p);
    assert(LOCAL_PREFIX@ != GLOBAL_PREFIX@);
}

} // verus!
